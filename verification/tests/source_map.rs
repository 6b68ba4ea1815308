use outou::{scale_offset, Mapping, MappingKind, NarrowOutcome, SourceId, SourceMap, SourceSpan, Span, Uri};

fn rsx() -> Uri {
    Uri::new("file:///app/src/App.rsx")
}

#[test]
fn one_generated_span_maps_to_many_source_spans() {
    let map = SourceMap::new(Uri::new("file:///app/src/.generated/App.rs"), vec![rsx()])
        .with_mapping(Mapping::new(
            Span::new(0, 8),
            vec![
                SourceSpan::new(SourceId(0), Span::new(1, 9)),
                SourceSpan::new(SourceId(0), Span::new(18, 26)),
            ],
            MappingKind::Identifier,
        ));

    let back = map.to_source(Span::new(2, 3));
    assert_eq!(back.len(), 2);
    assert_eq!(
        map.to_generated(SourceId(0), Span::new(20, 21)),
        vec![Span::new(0, 8)]
    );
}

#[test]
fn one_source_span_maps_to_many_generated_spans() {
    let map = SourceMap::new(Uri::new("file:///g.rs"), vec![rsx()])
        .with_mapping(Mapping::new(
            Span::new(0, 4),
            vec![SourceSpan::new(SourceId(0), Span::new(0, 4))],
            MappingKind::Expression,
        ))
        .with_mapping(Mapping::new(
            Span::new(10, 14),
            vec![SourceSpan::new(SourceId(0), Span::new(0, 4))],
            MappingKind::Expression,
        ));

    assert_eq!(map.to_generated(SourceId(0), Span::new(1, 2)).len(), 2);
}

#[test]
fn synthesized_code_has_no_source() {
    let map = SourceMap::new(Uri::new("file:///g.rs"), vec![rsx()]).with_mapping(Mapping::new(
        Span::new(0, 4),
        vec![],
        MappingKind::Other,
    ));
    assert!(map.to_source(Span::new(0, 1)).is_empty());
}

#[test]
fn with_label_attaches_an_optional_note() {
    let mapping =
        Mapping::new(Span::new(0, 4), vec![], MappingKind::Other).with_label("rsx! wrapper");
    assert_eq!(mapping.label.as_deref(), Some("rsx! wrapper"));
}

#[test]
fn map_range_ignores_a_zero_width_mapping_that_only_touches_the_query() {
    let map = SourceMap::new(Uri::new("file:///g.rs"), vec![rsx()]).with_mapping(Mapping::new(
        Span::new(8, 8),
        vec![SourceSpan::new(SourceId(0), Span::new(0, 5))],
        MappingKind::Identifier,
    ));

    assert!(map.map_range(Span::new(8, 10)).unmapped);
    assert!(map.map_range(Span::new(6, 8)).unmapped);
    assert_eq!(map.map_range(Span::new(8, 8)).sources.len(), 1);
}

#[test]
fn map_range_prefers_a_containing_mapping_over_an_overlapping_one() {
    let map = SourceMap::new(Uri::new("file:///g.rs"), vec![rsx()])
        .with_mapping(Mapping::new(
            Span::new(0, 10),
            vec![SourceSpan::new(SourceId(0), Span::new(100, 105))],
            MappingKind::Expression,
        ))
        .with_mapping(Mapping::new(
            Span::new(5, 12),
            vec![SourceSpan::new(SourceId(0), Span::new(200, 205))],
            MappingKind::Expression,
        ));

    assert_eq!(
        map.map_range(Span::new(4, 6)).sources,
        vec![SourceSpan::new(SourceId(0), Span::new(100, 105))]
    );
}

#[test]
fn map_range_returns_every_overlap_in_mapping_order() {
    let map = SourceMap::new(Uri::new("file:///g.rs"), vec![rsx()])
        .with_mapping(Mapping::new(
            Span::new(0, 10),
            vec![SourceSpan::new(SourceId(0), Span::new(100, 105))],
            MappingKind::Expression,
        ))
        .with_mapping(Mapping::new(
            Span::new(5, 12),
            vec![SourceSpan::new(SourceId(0), Span::new(200, 205))],
            MappingKind::Expression,
        ));

    assert_eq!(
        map.map_range(Span::new(8, 15)).sources,
        vec![
            SourceSpan::new(SourceId(0), Span::new(100, 105)),
            SourceSpan::new(SourceId(0), Span::new(200, 205)),
        ]
    );
}

#[test]
fn map_range_dedupes_sources_that_resolve_to_the_same_uri() {
    let map = SourceMap::new(Uri::new("file:///g.rs"), vec![rsx(), rsx()]).with_mapping(
        Mapping::new(
            Span::new(0, 10),
            vec![
                SourceSpan::new(SourceId(0), Span::new(1, 5)),
                SourceSpan::new(SourceId(1), Span::new(1, 5)),
            ],
            MappingKind::Identifier,
        ),
    );

    let mapped = map.map_range(Span::new(2, 3));
    assert_eq!(mapped.sources.len(), 1);
    assert_eq!(mapped.sources[0].source, SourceId(0));
}

#[test]
fn map_range_falls_back_to_overlap_when_nothing_contains() {
    let map = SourceMap::new(Uri::new("file:///g.rs"), vec![rsx()]).with_mapping(Mapping::new(
        Span::new(4, 10),
        vec![SourceSpan::new(SourceId(0), Span::new(0, 5))],
        MappingKind::Expression,
    ));

    let mapped = map.map_range(Span::new(2, 6));
    assert!(!mapped.unmapped);
    assert_eq!(mapped.sources.len(), 1);
}

#[test]
fn map_range_reports_unmapped_when_nothing_intersects() {
    let map = SourceMap::new(Uri::new("file:///g.rs"), vec![rsx()]).with_mapping(Mapping::new(
        Span::new(4, 10),
        vec![SourceSpan::new(SourceId(0), Span::new(0, 5))],
        MappingKind::Expression,
    ));

    let mapped = map.map_range(Span::new(20, 25));
    assert!(mapped.unmapped);
    assert!(mapped.sources.is_empty());
}

#[test]
fn map_range_matched_but_synthesized_is_not_unmapped() {
    let map = SourceMap::new(Uri::new("file:///g.rs"), vec![rsx()]).with_mapping(Mapping::new(
        Span::new(0, 4),
        vec![],
        MappingKind::Other,
    ));

    let mapped = map.map_range(Span::new(1, 2));
    assert!(!mapped.unmapped);
    assert!(mapped.sources.is_empty());
}

#[test]
fn narrow_scales_a_query_proportionally_within_a_same_length_mapping() {
    let map = SourceMap::new(Uri::new("file:///g.rs"), vec![rsx()]).with_mapping(Mapping::new(
        Span::new(30, 34),
        vec![SourceSpan::new(SourceId(0), Span::new(4, 8))],
        MappingKind::Identifier,
    ));
    match map.narrow(Span::new(31, 31)) {
        NarrowOutcome::Exact { source, span } => {
            assert_eq!(source, SourceId(0));
            assert_eq!(span, Span::new(5, 5));
        }
        other => panic!("expected Exact, got {other:?}"),
    }
}

#[test]
fn narrow_reports_a_length_mismatch_rather_than_a_wrong_guess() {
    let map = SourceMap::new(Uri::new("file:///g.rs"), vec![rsx()]).with_mapping(Mapping::new(
        Span::new(30, 36),
        vec![SourceSpan::new(SourceId(0), Span::new(4, 8))],
        MappingKind::Expression,
    ));
    assert_eq!(map.narrow(Span::new(31, 32)), NarrowOutcome::LengthMismatch);
}

#[test]
fn narrow_is_not_applicable_with_several_sources_or_no_containing_mapping() {
    let several_sources =
        SourceMap::new(Uri::new("file:///g.rs"), vec![rsx()]).with_mapping(Mapping::new(
            Span::new(0, 8),
            vec![
                SourceSpan::new(SourceId(0), Span::new(1, 9)),
                SourceSpan::new(SourceId(0), Span::new(18, 26)),
            ],
            MappingKind::Identifier,
        ));
    assert_eq!(
        several_sources.narrow(Span::new(1, 2)),
        NarrowOutcome::NotApplicable
    );

    let no_mapping = SourceMap::new(Uri::new("file:///g.rs"), vec![rsx()]);
    assert_eq!(
        no_mapping.narrow(Span::new(1, 2)),
        NarrowOutcome::NotApplicable
    );
}

#[test]
fn scaling_between_equal_length_spans_is_exact_both_ways() {
    let from = Span::new(10, 20);
    let to = Span::new(100, 110);
    assert_eq!(scale_offset(13, from, to), 103);
    assert_eq!(scale_offset(103, to, from), 13);
    assert_eq!(scale_offset(20, from, to), 110);
    // Between spans of different lengths the answer is scaled and clamped.
    assert_eq!(scale_offset(15, Span::new(10, 20), Span::new(0, 4)), 2);
    assert_eq!(scale_offset(99, Span::new(10, 20), Span::new(0, 4)), 4);
    assert_eq!(scale_offset(5, Span::new(10, 10), Span::new(7, 9)), 7);
}
