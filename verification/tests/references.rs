use outou::references::translate_references;
use outou::{LineIndex, Mapping, MappingKind, Position, PositionRange, Registry, SourceId, SourceMap, SourceSpan, Span, Uri};

const RSX: &str = "file:///app/src/main.rsx";
const GENERATED: &str = "file:///app/src/.generated/main.rs";

fn sample_workspace() -> (Registry, Vec<(Uri, LineIndex)>, Vec<(Uri, LineIndex)>) {
    let rsx_source = "fn f() { <Greeting>hi</Greeting> }";
    let open_start = rsx_source.find("Greeting").unwrap() as u32;
    let close_start = rsx_source.rfind("Greeting").unwrap() as u32;
    let map = SourceMap::new(Uri::new(GENERATED), vec![Uri::new(RSX)]).with_mapping(Mapping::new(
        Span::new(8, 16),
        vec![
            SourceSpan::new(SourceId(0), Span::new(open_start, open_start + 8)),
            SourceSpan::new(SourceId(0), Span::new(close_start, close_start + 8)),
        ],
        MappingKind::Identifier,
    ));
    (
        Registry::new().with_map(map),
        vec![(Uri::new(GENERATED), LineIndex::new("let _ = Greeting;"))],
        vec![(Uri::new(RSX), LineIndex::new(rsx_source))],
    )
}

fn range(l0: u32, c0: u32, l1: u32, c1: u32) -> PositionRange {
    PositionRange::new(Position::new(l0, c0), Position::new(l1, c1))
}

#[test]
fn translate_references_response_emits_both_tags_for_one_generated_occurrence() {
    let (registry, units, docs) = sample_workspace();
    let out = translate_references(&registry, &units, &docs, &vec![(Uri::new(GENERATED), range(0, 8, 0, 16))]);
    assert_eq!(out.len(), 2, "{out:#?}");
    for (uri, _) in &out {
        assert_eq!(uri.as_str(), RSX);
    }
    assert_eq!(out[0].1, range(0, 10, 0, 18));
    assert_eq!(out[1].1, range(0, 23, 0, 31));
}

#[test]
fn translate_references_response_drops_an_unmappable_location() {
    let (registry, units, docs) = sample_workspace();
    let out = translate_references(&registry, &units, &docs, &vec![(Uri::new(GENERATED), range(0, 0, 0, 3))]);
    assert_eq!(out.len(), 0);
}

#[test]
fn translate_references_response_passes_through_an_ordinary_rust_file_location() {
    let (registry, units, docs) = sample_workspace();
    let rs_uri = "file:///app/src/other.rs";
    let out = translate_references(&registry, &units, &docs, &vec![(Uri::new(rs_uri), range(1, 0, 1, 5))]);
    assert_eq!(out.len(), 1);
    assert_eq!(out[0].0.as_str(), rs_uri);
    assert_eq!(out[0].1, range(1, 0, 1, 5));
}

#[test]
fn translate_references_response_deduplicates_identical_locations() {
    let (registry, units, docs) = sample_workspace();
    let locations = vec![(Uri::new(GENERATED), range(0, 8, 0, 16)), (Uri::new(GENERATED), range(0, 8, 0, 16))];
    let out = translate_references(&registry, &units, &docs, &locations);
    // Each query expands to the same two `.rsx` locations; two, not four.
    assert_eq!(out.len(), 2, "{out:#?}");
}
