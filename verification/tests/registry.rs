use outou::{Mapping, MappingKind, Registry, SourceId, SourceMap, SourceSpan, Span, Uri};

#[test]
fn unknown_files_are_left_alone() {
    let reg = Registry::new();
    let dep = Uri::new("file:///home/.cargo/registry/src/foo/lib.rs");
    assert!(reg.map_for_generated(&dep).is_none());
    assert!(reg.sources_of(&dep).is_empty());
}

#[test]
fn generated_files_resolve_to_their_sources() {
    let generated = Uri::new("file:///app/src/.generated/components.rs");
    let source = Uri::new("file:///app/src/components.rsx");
    let reg = Registry::new().with_map(SourceMap::new(generated.clone(), vec![source.clone()]));
    assert_eq!(reg.sources_of(&generated), &[source]);
}

#[test]
fn a_later_map_for_the_same_generated_file_replaces_the_earlier_one() {
    let generated = Uri::new("file:///app/src/.generated/a.rs");
    let other = Uri::new("file:///app/src/.generated/b.rs");
    let first = SourceMap::new(generated.clone(), vec![Uri::new("file:///app/src/a.rsx")]);
    let second = SourceMap::new(generated.clone(), vec![Uri::new("file:///app/src/a2.rsx")])
        .with_mapping(Mapping::new(
            Span::new(0, 1),
            vec![SourceSpan::new(SourceId(0), Span::new(0, 1))],
            MappingKind::Other,
        ));
    let reg = Registry::new()
        .with_map(first)
        .with_map(SourceMap::new(other.clone(), vec![]))
        .with_map(second.clone());
    assert_eq!(reg.map_for_generated(&generated), Some(&second));
    assert_eq!(reg.sources_of(&generated), &[Uri::new("file:///app/src/a2.rsx")]);
    assert!(reg.is_generated(&other));
    assert!(!reg.is_generated(&Uri::new("file:///app/src/main.rs")));
}

#[test]
fn a_registry_knows_whether_its_maps_are_ordered() {
    let good = SourceMap::new(Uri::new("file:///g.rs"), vec![Uri::new("file:///a.rsx")])
        .with_mapping(Mapping::new(Span::new(0, 3), vec![SourceSpan::new(SourceId(0), Span::new(1, 4))], MappingKind::Other));
    assert!(good.spans_ordered());
    let registry = Registry::new().with_map(good);
    assert!(registry.maps_ordered());
    let bad = SourceMap::new(Uri::new("file:///h.rs"), vec![Uri::new("file:///a.rsx")])
        .with_mapping(Mapping::new(Span { start: 5, end: 2 }, vec![], MappingKind::Other));
    assert!(!bad.spans_ordered());
    assert!(!registry.with_map(bad).maps_ordered());
}

fn one_map(generated: &str, label: Option<&str>) -> SourceMap {
    let mapping = Mapping::new(Span::new(0, 4), vec![SourceSpan::new(SourceId(0), Span::new(0, 4))], MappingKind::Identifier);
    let mapping = match label {
        Some(l) => mapping.with_label(l),
        None => mapping,
    };
    SourceMap::new(Uri::new(generated), vec![Uri::new("file:///app/src/main.rsx")]).with_mapping(mapping)
}

#[test]
fn registries_are_equal_by_contents_whatever_the_insertion_order() {
    let a = Registry::new().with_map(one_map("file:///g/a.rs", None)).with_map(one_map("file:///g/b.rs", None));
    let b = Registry::new().with_map(one_map("file:///g/b.rs", None)).with_map(one_map("file:///g/a.rs", None));
    assert!(a == b);
    let c = Registry::new().with_map(one_map("file:///g/a.rs", Some("x"))).with_map(one_map("file:///g/b.rs", None));
    assert!(a != c);
    let d = Registry::new().with_map(one_map("file:///g/a.rs", None));
    assert!(a != d);
    assert!(d != a);
}

#[test]
fn a_cloned_registry_equals_the_original() {
    let a = Registry::new().with_map(one_map("file:///g/a.rs", Some("label")));
    let copy = a.clone();
    assert!(copy == a);
    assert_eq!(copy.sources_of(&Uri::new("file:///g/a.rs")).len(), 1);
}

#[test]
fn the_default_registry_is_empty() {
    assert!(Registry::default() == Registry::new());
    assert!(!Registry::default().is_generated(&Uri::new("file:///g/a.rs")));
}
