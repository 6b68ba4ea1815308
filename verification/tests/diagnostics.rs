use outou::diagnostics::diagnostics_for_rsx;
use outou::{LineIndex, Mapping, MappingKind, Position, PositionRange, Registry, SourceId, SourceMap, SourceSpan, Span, Uri};

const RSX: &str = "file:///app/src/main.rsx";
const OTHER: &str = "file:///app/src/other.rsx";
const GENERATED: &str = "file:///app/src/.generated/main.rs";

fn range(l0: u32, c0: u32, l1: u32, c1: u32) -> PositionRange {
    PositionRange::new(Position::new(l0, c0), Position::new(l1, c1))
}

#[test]
fn only_diagnostics_landing_in_the_rsx_file_are_kept_at_their_source() {
    let map = SourceMap::new(Uri::new(GENERATED), vec![Uri::new(RSX), Uri::new(OTHER)])
        .with_mapping(Mapping::new(Span::new(0, 3), vec![SourceSpan::new(SourceId(0), Span::new(4, 7))], MappingKind::Other))
        .with_mapping(Mapping::new(Span::new(4, 7), vec![SourceSpan::new(SourceId(1), Span::new(0, 3))], MappingKind::Other));
    let registry = Registry::new().with_map(map);
    let units = vec![(Uri::new(GENERATED), LineIndex::new("abc def ghi"))];
    let docs = vec![(Uri::new(RSX), LineIndex::new("xx\nyy abc")), (Uri::new(OTHER), LineIndex::new("def"))];
    let ranges = vec![range(0, 0, 0, 3), range(0, 4, 0, 7), range(0, 8, 0, 11)];
    let kept = diagnostics_for_rsx(&registry, &units, &docs, &Uri::new(GENERATED), &Uri::new(RSX), &ranges);
    assert_eq!(kept, vec![(0, range(1, 1, 1, 4))]);
}
