use outou::mapping::{all_sources_for, generated_distance, nearest_source_span, rsx_offset_to_generated};
use outou::{Mapping, MappingKind, SourceId, SourceMap, SourceSpan, Span, Uri};

fn map_with(mappings: Vec<Mapping>) -> SourceMap {
    let mut map = SourceMap::new(Uri::new("file:///gen.rs"), vec![Uri::new("file:///a.rsx")]);
    for m in mappings {
        map = map.with_mapping(m);
    }
    map
}

fn src(start: u32, end: u32) -> SourceSpan {
    SourceSpan::new(SourceId(0), Span::new(start, end))
}

#[test]
fn distance_is_zero_for_touching_or_overlapping_spans() {
    assert_eq!(generated_distance(Span::new(0, 5), Span::new(5, 9)), 0);
    assert_eq!(generated_distance(Span::new(0, 5), Span::new(3, 9)), 0);
    assert_eq!(generated_distance(Span::new(0, 5), Span::new(8, 9)), 3);
    assert_eq!(generated_distance(Span::new(10, 12), Span::new(1, 4)), 6);
}

#[test]
fn an_rsx_offset_goes_through_the_smallest_containing_source() {
    let map = map_with(vec![
        Mapping::new(Span::new(100, 140), vec![src(0, 40)], MappingKind::Other),
        Mapping::new(Span::new(200, 205), vec![src(10, 15)], MappingKind::Identifier),
    ]);
    assert_eq!(rsx_offset_to_generated(&map, 12), Some(202));
    assert_eq!(rsx_offset_to_generated(&map, 30), Some(130));
    assert_eq!(rsx_offset_to_generated(&map, 50), None);
}

#[test]
fn a_length_mismatched_mapping_maps_an_offset_to_nothing() {
    let map = map_with(vec![Mapping::new(Span::new(10, 20), vec![src(0, 5)], MappingKind::Expression)]);
    assert_eq!(rsx_offset_to_generated(&map, 2), None);
}

#[test]
fn the_nearest_mapping_with_a_source_is_the_fallback() {
    let map = map_with(vec![
        Mapping::new(Span::new(0, 5), vec![src(1, 2)], MappingKind::Other),
        Mapping::new(Span::new(20, 30), Vec::new(), MappingKind::Other),
        Mapping::new(Span::new(40, 50), vec![src(7, 9)], MappingKind::Other),
    ]);
    assert_eq!(nearest_source_span(&map, Span::new(31, 33)), Some(Span::new(7, 9)));
    assert_eq!(nearest_source_span(&map, Span::new(36, 36)), Some(Span::new(7, 9)));
    assert_eq!(nearest_source_span(&map, Span::new(22, 22)), Some(Span::new(1, 2)));
    assert_eq!(nearest_source_span(&map, Span::new(6, 6)), Some(Span::new(1, 2)));
    assert_eq!(nearest_source_span(&map_with(Vec::new()), Span::new(0, 0)), None);
}

#[test]
fn all_sources_narrows_inside_a_verbatim_mapping() {
    let map = map_with(vec![Mapping::new(Span::new(100, 122), vec![src(0, 22)], MappingKind::Other)]);
    assert_eq!(all_sources_for(&map, Span::new(103, 111)), vec![src(3, 11)]);
}

#[test]
fn all_sources_returns_both_tags_for_an_exact_identifier_mapping() {
    let map = map_with(vec![Mapping::new(
        Span::new(8, 16),
        vec![src(10, 18), src(25, 33)],
        MappingKind::Identifier,
    )]);
    assert_eq!(all_sources_for(&map, Span::new(8, 16)), vec![src(10, 18), src(25, 33)]);
    assert!(all_sources_for(&map, Span::new(9, 12)).is_empty());
}

#[test]
fn all_sources_is_empty_for_a_length_mismatched_mapping() {
    let map = map_with(vec![Mapping::new(Span::new(0, 6), vec![src(0, 4)], MappingKind::Attribute)]);
    assert!(all_sources_for(&map, Span::new(0, 6)).is_empty());
}

use outou::mapping::{
    generated_location_to_source, generated_range_to_all_sources, nearest_source_position,
    rsx_position_to_generated, workspace_location_to_source, workspace_range_to_all_sources, MappedLocation,
};
use outou::{LineIndex, Position, PositionRange, Registry};

struct Sample {
    map: SourceMap,
    rsx_uri: Uri,
    rsx: LineIndex,
    generated: LineIndex,
}

fn sample() -> Sample {
    let rsx_uri = Uri::new("file:///app/src/main.rsx");
    let generated_uri = Uri::new("file:///app/src/.generated/crate-root.rs");
    let map = SourceMap::new(generated_uri, vec![rsx_uri.duplicate()]).with_mapping(Mapping::new(
        Span::new(30, 34),
        vec![SourceSpan::new(SourceId(0), Span::new(4, 8))],
        MappingKind::Identifier,
    ));
    let generated_text = format!("{}user{}", "x".repeat(30), "y".repeat(10));
    Sample {
        map,
        rsx_uri,
        rsx: LineIndex::new("let user = load_user();\n"),
        generated: LineIndex::new(&generated_text),
    }
}

fn range(sl: u32, sc: u32, el: u32, ec: u32) -> PositionRange {
    PositionRange::new(Position::new(sl, sc), Position::new(el, ec))
}

#[test]
fn maps_an_rsx_position_forward_to_the_generated_position() {
    let s = sample();
    let mapped = rsx_position_to_generated(&s.rsx, &s.generated, &s.map, Position::new(0, 4));
    assert_eq!(mapped, Some(Position::new(0, 30)));
}

#[test]
fn maps_a_position_partway_through_a_span_proportionally() {
    let s = sample();
    let mapped = rsx_position_to_generated(&s.rsx, &s.generated, &s.map, Position::new(0, 5));
    assert_eq!(mapped, Some(Position::new(0, 31)));
}

#[test]
fn maps_a_generated_location_back_to_the_rsx_source() {
    let s = sample();
    let docs = vec![(s.rsx_uri.duplicate(), s.rsx)];
    match generated_location_to_source(&s.map, &s.generated, &docs, range(0, 30, 0, 34)) {
        MappedLocation::Source { uri, range: r } => {
            assert_eq!(uri.as_str(), s.rsx_uri.as_str());
            assert_eq!(r.start, Position::new(0, 4));
            assert_eq!(r.end, Position::new(0, 8));
        }
        other => panic!("expected a mapped source location, got {other:?}"),
    }
}

#[test]
fn nearest_source_position_falls_back_to_the_closest_mapping() {
    let s = sample();
    let r = nearest_source_position(&s.generated, &s.rsx, &s.map, range(0, 60, 0, 64));
    assert_eq!(r.start, Position::new(0, 4));
    assert_eq!(r.end, Position::new(0, 8));
}

#[test]
fn nearest_source_position_is_the_file_start_without_any_source() {
    let s = sample();
    let empty = SourceMap::new(Uri::new("file:///g.rs"), Vec::new());
    let r = nearest_source_position(&s.generated, &s.rsx, &empty, range(0, 1, 0, 2));
    assert_eq!(r, range(0, 0, 0, 0));
}

#[test]
fn a_length_mismatched_mapping_maps_forward_to_nothing() {
    let s = sample();
    let map = SourceMap::new(Uri::new("file:///app/src/.generated/crate-root.rs"), vec![s.rsx_uri.duplicate()])
        .with_mapping(Mapping::new(
            Span::new(30, 36),
            vec![SourceSpan::new(SourceId(0), Span::new(4, 8))],
            MappingKind::Expression,
        ));
    assert_eq!(rsx_position_to_generated(&s.rsx, &s.generated, &map, Position::new(0, 5)), None);
}

#[test]
fn a_length_mismatched_mapping_maps_backward_to_unmapped() {
    let rsx_uri = Uri::new("file:///app/src/main.rsx");
    let map = SourceMap::new(Uri::new("file:///app/src/.generated/crate-root.rs"), vec![rsx_uri.duplicate()])
        .with_mapping(Mapping::new(
            Span::new(30, 36),
            vec![SourceSpan::new(SourceId(0), Span::new(4, 8))],
            MappingKind::Expression,
        ));
    let generated_text = format!("{}\"{{tag}}\"{}", "x".repeat(30), "y".repeat(10));
    let generated = LineIndex::new(&generated_text);
    let docs = vec![(rsx_uri, LineIndex::new("let tag = String::new();\n"))];
    let mapped = generated_location_to_source(&map, &generated, &docs, range(0, 31, 0, 32));
    assert!(matches!(mapped, MappedLocation::Unmapped));
}

#[test]
fn a_location_outside_every_mapping_is_unmapped() {
    let s = sample();
    let docs = vec![(s.rsx_uri.duplicate(), s.rsx)];
    let mapped = generated_location_to_source(&s.map, &s.generated, &docs, range(0, 1, 0, 2));
    assert!(matches!(mapped, MappedLocation::Unmapped));
}

#[test]
fn registry_reverse_answers_only_for_generated_files() {
    let s = sample();
    let registry = Registry::new().with_map(s.map);
    let gen = Uri::new("file:///app/src/.generated/crate-root.rs");
    let found = registry.reverse(&gen, Span::new(31, 32)).unwrap();
    assert_eq!(found.len(), 1);
    assert_eq!(found[0].0.as_str(), "file:///app/src/main.rsx");
    assert_eq!(found[0].1, Span::new(4, 8));
    assert!(registry.reverse(&Uri::new("file:///dep/lib.rs"), Span::new(0, 1)).is_none());
}

struct Narrow {
    map: SourceMap,
    rsx_uri: Uri,
    rsx_source: String,
    generated: LineIndex,
    sig_greeting: PositionRange,
    ident: PositionRange,
    type_range: PositionRange,
}

fn narrow_fixture() -> Narrow {
    let rsx_uri = Uri::new("file:///app/src/main.rsx");
    let generated_uri = Uri::new("file:///app/src/.generated/main.rs");
    let rsx_source = "fn Greeting(x: i32) {} <Greeting>hi</Greeting> type";
    let sig_end = rsx_source.find(" <Greeting>").unwrap();
    let sig_text = &rsx_source[0..sig_end];
    let occurrences: Vec<usize> = rsx_source.match_indices("Greeting").map(|(i, _)| i).collect();
    assert_eq!(occurrences.len(), 3);
    let sig_name_offset = occurrences[0] as u32;
    let open_start = occurrences[1] as u32;
    let close_start = occurrences[2] as u32;
    let type_start = rsx_source.rfind("type").unwrap() as u32;
    let prefix_len: u32 = 10;
    let sig_len = sig_text.len() as u32;
    let mid_len: u32 = 10;
    let ident_len: u32 = 8;
    let mid2_len: u32 = 10;
    let generated_text = format!(
        "{}{}{}{}{}{}",
        "a".repeat(prefix_len as usize),
        sig_text,
        "b".repeat(mid_len as usize),
        "Greeting",
        "c".repeat(mid2_len as usize),
        "ABCDEF",
    );
    let sig_greeting_generated_start = prefix_len + sig_name_offset;
    let ident_generated_start = prefix_len + sig_len + mid_len;
    let type_generated_start = prefix_len + sig_len + mid_len + ident_len + mid2_len;
    let map = SourceMap::new(generated_uri, vec![rsx_uri.duplicate()])
        .with_mapping(Mapping::new(
            Span::new(prefix_len, prefix_len + sig_len),
            vec![SourceSpan::new(SourceId(0), Span::new(0, sig_len))],
            MappingKind::Expression,
        ))
        .with_mapping(Mapping::new(
            Span::new(ident_generated_start, ident_generated_start + ident_len),
            vec![
                SourceSpan::new(SourceId(0), Span::new(open_start, open_start + 8)),
                SourceSpan::new(SourceId(0), Span::new(close_start, close_start + 8)),
            ],
            MappingKind::Identifier,
        ))
        .with_mapping(Mapping::new(
            Span::new(type_generated_start, type_generated_start + 6),
            vec![SourceSpan::new(SourceId(0), Span::new(type_start, type_start + 4))],
            MappingKind::Attribute,
        ));
    let generated = LineIndex::new(&generated_text);
    let sig_greeting = generated.span_to_range(Span::new(sig_greeting_generated_start, sig_greeting_generated_start + 8));
    let ident = generated.span_to_range(Span::new(ident_generated_start, ident_generated_start + ident_len));
    let type_range = generated.span_to_range(Span::new(type_generated_start, type_generated_start + 6));
    Narrow { map, rsx_uri, rsx_source: rsx_source.to_string(), generated, sig_greeting, ident, type_range }
}

#[test]
fn generated_range_to_all_sources_narrows_inside_a_verbatim_mapping() {
    let f = narrow_fixture();
    let doc = LineIndex::new(&f.rsx_source);
    let docs = vec![(f.rsx_uri.duplicate(), LineIndex::new(&f.rsx_source))];
    let sources = generated_range_to_all_sources(&f.map, &f.generated, &docs, f.sig_greeting);
    assert_eq!(sources.len(), 1);
    let (uri, r) = &sources[0];
    assert_eq!(uri.as_str(), f.rsx_uri.as_str());
    let span = doc.range_to_span(*r);
    assert_eq!(&f.rsx_source[span.start as usize..span.end as usize], "Greeting");
}

#[test]
fn generated_range_to_all_sources_returns_both_tags_for_an_exact_identifier_mapping() {
    let f = narrow_fixture();
    let doc = LineIndex::new(&f.rsx_source);
    let docs = vec![(f.rsx_uri.duplicate(), LineIndex::new(&f.rsx_source))];
    let sources = generated_range_to_all_sources(&f.map, &f.generated, &docs, f.ident);
    assert_eq!(sources.len(), 2);
    for (uri, r) in &sources {
        assert_eq!(uri.as_str(), f.rsx_uri.as_str());
        let span = doc.range_to_span(*r);
        assert_eq!(&f.rsx_source[span.start as usize..span.end as usize], "Greeting");
    }
}

#[test]
fn generated_range_to_all_sources_is_empty_for_a_length_mismatched_mapping() {
    let f = narrow_fixture();
    let docs = vec![(f.rsx_uri.duplicate(), LineIndex::new(&f.rsx_source))];
    assert!(generated_range_to_all_sources(&f.map, &f.generated, &docs, f.type_range).is_empty());
}

#[test]
fn generated_range_to_all_sources_skips_a_source_whose_document_is_not_open() {
    let f = narrow_fixture();
    let docs: Vec<(Uri, LineIndex)> = Vec::new();
    assert!(generated_range_to_all_sources(&f.map, &f.generated, &docs, f.ident).is_empty());
}

#[test]
fn a_dependency_location_passes_through_unchanged() {
    let map = SourceMap::new(Uri::new("file:///app/src/.generated/main.rs"), vec![Uri::new("file:///app/src/main.rsx")])
        .with_mapping(Mapping::new(Span::new(0, 4), vec![src(0, 4)], MappingKind::Expression));
    let registry = Registry::new().with_map(map);
    let units = vec![(Uri::new("file:///app/src/.generated/main.rs"), LineIndex::new("abcd"))];
    let docs = vec![(Uri::new("file:///app/src/main.rsx"), LineIndex::new("abcd"))];
    let mapped = workspace_location_to_source(
        &registry,
        &units,
        &docs,
        &Uri::new("file:///home/.cargo/registry/src/foo/lib.rs"),
        PositionRange::new(Position::new(0, 0), Position::new(0, 1)),
    );
    assert!(matches!(mapped, MappedLocation::Unchanged));
}

#[test]
fn generated_range_to_all_sources_never_passes_through_a_known_generated_uri() {
    let generated = "file:///app/src/.generated/main.rs";
    let map = SourceMap::new(Uri::new(generated), vec![Uri::new("file:///app/src/main.rsx")])
        .with_mapping(Mapping::new(Span::new(0, 4), vec![src(0, 4)], MappingKind::Expression));
    let registry = Registry::new().with_map(map);
    // Deliberately no loaded unit for this URI, though the registry knows
    // it as a generated file.
    let result = workspace_range_to_all_sources(
        &registry,
        &Vec::new(),
        &Vec::new(),
        &Uri::new(generated),
        PositionRange::new(Position::new(0, 0), Position::new(0, 4)),
    );
    assert_eq!(result, Some(Vec::new()), "a known-generated URI must resolve to Some(empty), never None");
    let passthrough = workspace_range_to_all_sources(
        &registry,
        &Vec::new(),
        &Vec::new(),
        &Uri::new("file:///app/src/other.rs"),
        PositionRange::new(Position::new(0, 0), Position::new(0, 4)),
    );
    assert_eq!(passthrough, None);
}

use outou::mapping::{generated_unit_for, workspace_position_to_generated};

struct Forward {
    registry: Registry,
    units: Vec<(Uri, LineIndex)>,
    docs: Vec<(Uri, LineIndex)>,
    table: Vec<(Uri, Uri)>,
}

fn forward_fixture() -> Forward {
    let s = sample();
    let generated_uri = Uri::new("file:///app/src/.generated/crate-root.rs");
    let generated_text = format!("{}user{}", "x".repeat(30), "y".repeat(10));
    Forward {
        registry: Registry::new().with_map(s.map),
        units: vec![(generated_uri.duplicate(), LineIndex::new(&generated_text))],
        docs: vec![(s.rsx_uri.duplicate(), s.rsx)],
        table: vec![(s.rsx_uri, generated_uri)],
    }
}

#[test]
fn a_workspace_rsx_position_maps_to_its_generated_unit() {
    let f = forward_fixture();
    let rsx = Uri::new("file:///app/src/main.rsx");
    let (uri, position) =
        workspace_position_to_generated(&f.registry, &f.units, &f.docs, &f.table, &rsx, Position::new(0, 5)).unwrap();
    assert_eq!(uri.as_str(), "file:///app/src/.generated/crate-root.rs");
    assert_eq!(position, Position::new(0, 31));
}

#[test]
fn a_workspace_position_outside_every_mapping_or_file_maps_to_nothing() {
    let f = forward_fixture();
    let rsx = Uri::new("file:///app/src/main.rsx");
    assert!(workspace_position_to_generated(&f.registry, &f.units, &f.docs, &f.table, &rsx, Position::new(0, 0)).is_none());
    let other = Uri::new("file:///app/src/other.rsx");
    assert!(workspace_position_to_generated(&f.registry, &f.units, &f.docs, &f.table, &other, Position::new(0, 5)).is_none());
    let no_units: Vec<(Uri, LineIndex)> = Vec::new();
    assert!(workspace_position_to_generated(&f.registry, &no_units, &f.docs, &f.table, &rsx, Position::new(0, 5)).is_none());
}

#[test]
fn the_generated_unit_of_an_rsx_file_is_its_first_table_entry() {
    let table = vec![
        (Uri::new("file:///a.rsx"), Uri::new("file:///g/a.rs")),
        (Uri::new("file:///b.rsx"), Uri::new("file:///g/b.rs")),
        (Uri::new("file:///a.rsx"), Uri::new("file:///g/a2.rs")),
    ];
    assert_eq!(generated_unit_for(&table, &Uri::new("file:///a.rsx")).unwrap().as_str(), "file:///g/a.rs");
    assert_eq!(generated_unit_for(&table, &Uri::new("file:///b.rsx")).unwrap().as_str(), "file:///g/b.rs");
    assert!(generated_unit_for(&table, &Uri::new("file:///c.rsx")).is_none());
}
