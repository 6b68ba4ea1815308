use outou::translate::{contains_backend_marker, contains_component_props_marker, looks_like_generated_name, translate_message};

#[test]
fn a_plain_rustc_message_is_untouched() {
    assert_eq!(
        translate_message("mismatched types: expected `String`, found `u32`"),
        "mismatched types: expected `String`, found `u32`"
    );
}

#[test]
fn a_props_builder_message_gets_the_specific_rewrite() {
    let msg = "no method named `build` found for struct `GreetingPropsBuilder`";
    assert_eq!(translate_message(msg), "this component is missing a required property");
}

#[test]
fn an_unknown_backend_marker_gets_the_generic_message() {
    let msg = "this error originates in the derive macro `Props`, dioxus_core::internals";
    assert_eq!(translate_message(msg), "the backend rejected this element; see the generated code");
}

#[test]
fn an_into_dyn_node_message_gets_its_own_rewrite() {
    let msg = "the trait `IntoDynNode` is not implemented for `Foo`";
    assert_eq!(translate_message(msg), "this value cannot be used as element content here");
}

#[test]
fn props_builder_wins_over_into_dyn_node() {
    let msg = "IntoDynNode and PropsBuilder both appear";
    assert_eq!(translate_message(msg), "this component is missing a required property");
}

#[test]
fn a_usage_heading_is_backend_vocabulary_only_for_hover_lines() {
    assert!(contains_backend_marker("## Usage in rsx"));
    assert_eq!(translate_message("## Usage in rsx"), "## Usage in rsx");
    assert!(contains_backend_marker("a dioxus_signals thing"));
    assert!(!contains_backend_marker("plain rust"));
}

#[test]
fn component_props_marker_needs_a_known_component() {
    let names = vec!["Greeting".to_string()];
    assert!(contains_component_props_marker("struct GreetingPropsBuilder", &names));
    assert!(!contains_component_props_marker("struct MyProps", &names));
    assert!(!contains_component_props_marker("struct GreetingProps", &[]));
}

#[test]
fn translate_diagnostic_keeps_severity_and_code_and_hides_the_original() {
    // Severity and code stay with the caller's diagnostic; only the
    // message changes, and the original is kept aside.
    let (message, original) = outou::translate::translate_diagnostic("rsx! macro expansion failed");
    assert_ne!(message, "rsx! macro expansion failed");
    assert_eq!(message, "the backend rejected this element; see the generated code");
    assert_eq!(original.as_deref(), Some("rsx! macro expansion failed"));
}

#[test]
fn translate_diagnostic_leaves_an_untranslated_message_with_no_data() {
    let (message, original) = outou::translate::translate_diagnostic("unused variable: `x`");
    assert_eq!(message, "unused variable: `x`");
    assert!(original.is_none());
}

#[test]
fn translating_a_translated_message_changes_nothing() {
    for m in ["no method named `build` found for struct `GreetingPropsBuilder`", "IntoDynNode is not implemented", "rsx! failed", "plain"] {
        let once = translate_message(m);
        assert_eq!(translate_message(&once), once);
    }
}

#[test]
fn generated_names_are_judged_by_shape() {
    assert!(looks_like_generated_name("GreetingProps"));
    assert!(looks_like_generated_name("__TEMPLATE_ROOTS"));
    assert!(looks_like_generated_name("MyProps"));
    assert!(!looks_like_generated_name("PropsOwner"));
    assert!(!looks_like_generated_name("_private"));
    assert!(!looks_like_generated_name("unwrap"));
    assert!(!looks_like_generated_name(""));
}
