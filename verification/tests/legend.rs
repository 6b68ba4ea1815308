use outou::{Legend, ATTRIBUTE_TYPE, COMPONENT_TYPE, ELEMENT_TYPE, EVENT_TYPE, TEXT_TYPE};

#[test]
fn default_legend_includes_every_type_outou_tokens_names() {
    let legend = Legend::default_legend();
    for name in [COMPONENT_TYPE, ELEMENT_TYPE, ATTRIBUTE_TYPE, EVENT_TYPE, TEXT_TYPE] {
        assert!(legend.type_index(name).is_some(), "default legend is missing standard type {name}");
    }
}

#[test]
fn type_index_is_none_for_an_unknown_name() {
    let legend = Legend::default_legend();
    assert_eq!(legend.type_index("not-a-real-type"), None);
}

#[test]
fn extended_with_outou_types_appends_missing_names_without_disturbing_ra_indices() {
    let ra_legend = Legend {
        token_types: vec![
            "comment".to_string(),
            "type".to_string(),
            "property".to_string(),
            "string".to_string(),
        ],
        token_modifiers: vec!["declaration".to_string()],
    };
    let extended = ra_legend.extended_with_outou_types();
    assert_eq!(extended.type_index("type"), Some(1));
    assert!(extended.type_index(COMPONENT_TYPE).is_some());
    assert!(extended.type_index(EVENT_TYPE).is_some());
    assert_eq!(extended.token_types[..ra_legend.token_types.len()], ra_legend.token_types[..]);
}

#[test]
fn extended_with_outou_types_appends_nothing_when_already_present() {
    let legend = Legend::default_legend();
    let extended = legend.extended_with_outou_types();
    assert_eq!(extended.token_types, legend.token_types);
}

#[test]
fn default_legend_lists_the_standard_names_in_order() {
    let legend = Legend::default_legend();
    assert_eq!(legend.token_types.len(), 23);
    assert_eq!(legend.token_types[0], "namespace");
    assert_eq!(legend.token_types[22], "decorator");
    assert_eq!(legend.type_index(COMPONENT_TYPE), Some(2));
    assert_eq!(legend.type_index(TEXT_TYPE), Some(18));
    assert_eq!(legend.token_modifiers.len(), 10);
    assert_eq!(legend.token_modifiers[9], "defaultLibrary");
}

#[test]
fn extended_appends_missing_names_in_overlay_order() {
    let legend = Legend {
        token_types: vec!["namespace".to_string(), "type".to_string()],
        token_modifiers: Vec::new(),
    };
    let extended = legend.extended_with_outou_types();
    assert_eq!(extended.token_types, vec!["namespace", "type", "class", "property", "event", "string"]);
    assert_eq!(extended.type_index("class"), Some(2));
    assert!(extended.token_modifiers.is_empty());
}

#[test]
fn type_index_finds_the_first_of_repeated_names() {
    let legend = Legend {
        token_types: vec!["namespace".to_string(), "type".to_string(), "class".to_string(), "type".to_string()],
        token_modifiers: vec!["declaration".to_string()],
    };
    assert_eq!(legend.type_index("class"), Some(2));
    assert_eq!(legend.type_index("type"), Some(1));
}
