use outou::{BuildError, MappingKind, SourceId, SourceMapBuilder, SourceSpan, Span, Uri};

#[test]
fn open_and_close_tag_produce_one_generated_identifier_with_two_sources() {
    let (builder, source) =
        SourceMapBuilder::new(Uri::new("file:///g.rs")).with_source(Uri::new("file:///a.rsx"));

    let map = builder
        .try_with_mapping(
            Span::new(0, 8),
            &[
                SourceSpan::new(source, Span::new(1, 9)),
                SourceSpan::new(source, Span::new(18, 26)),
            ],
            MappingKind::Identifier,
            None,
        )
        .expect("valid mapping")
        .finish();

    assert_eq!(map.mappings.len(), 1);
    assert_eq!(map.mappings[0].sources.len(), 2);
}

#[test]
fn one_source_expression_produces_several_generated_spans() {
    let (builder, source) =
        SourceMapBuilder::new(Uri::new("file:///g.rs")).with_source(Uri::new("file:///a.rsx"));

    let map = builder
        .try_with_mapping(
            Span::new(20, 24),
            &[SourceSpan::new(source, Span::new(5, 9))],
            MappingKind::Expression,
            None,
        )
        .expect("valid mapping")
        .try_with_mapping(
            Span::new(40, 44),
            &[SourceSpan::new(source, Span::new(5, 9))],
            MappingKind::Expression,
            Some("forwarded prop".to_string()),
        )
        .expect("valid mapping")
        .finish();

    assert_eq!(
        map.to_generated(source, Span::new(6, 7)).len(),
        2,
        "the one source span must reach both generated spans"
    );
}

#[test]
fn finish_sorts_mappings_by_generated_start() {
    let (builder, source) =
        SourceMapBuilder::new(Uri::new("file:///g.rs")).with_source(Uri::new("file:///a.rsx"));

    let map = builder
        .try_with_mapping(
            Span::new(10, 14),
            &[SourceSpan::new(source, Span::new(0, 4))],
            MappingKind::Expression,
            None,
        )
        .expect("valid mapping")
        .try_with_mapping(
            Span::new(0, 4),
            &[SourceSpan::new(source, Span::new(0, 4))],
            MappingKind::Expression,
            None,
        )
        .expect("valid mapping")
        .finish();

    assert_eq!(map.mappings[0].generated, Span::new(0, 4));
    assert_eq!(map.mappings[1].generated, Span::new(10, 14));
}

#[test]
fn try_with_mapping_rejects_an_inverted_generated_span() {
    let (builder, source) =
        SourceMapBuilder::new(Uri::new("file:///g.rs")).with_source(Uri::new("file:///a.rsx"));

    let err = builder
        .try_with_mapping(
            Span { start: 10, end: 5 },
            &[SourceSpan::new(source, Span::new(0, 1))],
            MappingKind::Expression,
            None,
        )
        .unwrap_err();

    assert_eq!(err, BuildError::InvertedGeneratedSpan { start: 10, end: 5 });
}

#[test]
fn try_with_mapping_rejects_an_unknown_source_id() {
    let (builder, _source) =
        SourceMapBuilder::new(Uri::new("file:///g.rs")).with_source(Uri::new("file:///a.rsx"));

    let err = builder
        .try_with_mapping(
            Span::new(0, 4),
            &[SourceSpan::new(SourceId(4), Span::new(0, 1))],
            MappingKind::Expression,
            None,
        )
        .unwrap_err();

    assert_eq!(
        err,
        BuildError::UnknownSourceId {
            index: 4,
            registered: 1
        }
    );
}

#[test]
fn try_with_mapping_rejects_an_inverted_source_span() {
    let (builder, source) =
        SourceMapBuilder::new(Uri::new("file:///g.rs")).with_source(Uri::new("file:///a.rsx"));

    let err = builder
        .try_with_mapping(
            Span::new(0, 4),
            &[
                SourceSpan::new(source, Span::new(0, 1)),
                SourceSpan::new(source, Span { start: 7, end: 3 }),
                SourceSpan::new(SourceId(9), Span::new(0, 1)),
            ],
            MappingKind::Expression,
            None,
        )
        .unwrap_err();

    assert_eq!(err, BuildError::InvertedSourceSpan { start: 7, end: 3 });
}

#[test]
fn finish_keeps_insertion_order_for_equal_starts() {
    let (builder, source) =
        SourceMapBuilder::new(Uri::new("file:///g.rs")).with_source(Uri::new("file:///a.rsx"));

    let map = builder
        .try_with_mapping(
            Span::new(0, 10),
            &[SourceSpan::new(source, Span::new(0, 4))],
            MappingKind::Expression,
            Some("first".to_string()),
        )
        .expect("valid mapping")
        .try_with_mapping(
            Span::new(0, 5),
            &[SourceSpan::new(source, Span::new(0, 4))],
            MappingKind::Expression,
            Some("second".to_string()),
        )
        .expect("valid mapping")
        .finish();

    assert_eq!(map.mappings[0].generated, Span::new(0, 10));
    assert_eq!(map.mappings[0].label.as_deref(), Some("first"));
}

#[test]
fn finish_sorts_a_longer_list_stably() {
    let (mut builder, source) =
        SourceMapBuilder::new(Uri::new("file:///g.rs")).with_source(Uri::new("file:///a.rsx"));
    let starts = [7u32, 3, 7, 0, 3, 9, 0];
    for (i, start) in starts.iter().enumerate() {
        builder = builder
            .try_with_mapping(
                Span::new(*start, start + 1),
                &[SourceSpan::new(source, Span::new(0, 1))],
                MappingKind::Other,
                Some(i.to_string()),
            )
            .expect("valid mapping");
    }
    let map = builder.finish();
    let order: Vec<(u32, String)> = map
        .mappings
        .iter()
        .map(|m| (m.generated.start, m.label.clone().unwrap()))
        .collect();
    assert_eq!(
        order,
        vec![
            (0, "3".to_string()),
            (0, "6".to_string()),
            (3, "1".to_string()),
            (3, "4".to_string()),
            (7, "0".to_string()),
            (7, "2".to_string()),
            (9, "5".to_string()),
        ]
    );
}

#[test]
fn with_source_assigns_increasing_ids() {
    let (builder, first) =
        SourceMapBuilder::new(Uri::new("file:///g.rs")).with_source(Uri::new("file:///a.rsx"));
    let (builder, second) = builder.with_source(Uri::new("file:///b.rsx"));
    let map = builder.finish();

    assert_eq!(first, SourceId(0));
    assert_eq!(second, SourceId(1));
    assert_eq!(map.sources.len(), 2);
}
