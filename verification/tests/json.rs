use outou::{
    FromJsonError, Mapping, MappingJson, MappingKind, Position, PositionRange, SourceId,
    SourceMap, SourceMapJson, SourceSpan, SourceSpanJson, Span, ToJsonError, Uri,
    SOURCE_MAP_JSON_VERSION,
};

#[test]
fn round_trips_through_json_forms() {
    let generated_text = "pub fn App() -> Element {\n    let user = load_user();\n    UserCard { user: user }\n}\n";
    let source_text =
        "fn App() -> Element {\n    let user = load_user();\n    <UserCard user={user} />\n}\n";

    let map = SourceMap::new(
        Uri::new("file:///app/src/.generated/App.rs"),
        vec![Uri::new("file:///app/src/App.rsx")],
    )
    .with_mapping(
        Mapping::new(
            Span::new(34, 38),
            vec![SourceSpan::new(SourceId(0), Span::new(30, 34))],
            MappingKind::Identifier,
        )
        .with_label("user declaration"),
    )
    .with_mapping(Mapping::new(Span::new(0, 3), vec![], MappingKind::Other));

    let json = map
        .to_json(generated_text, &[source_text])
        .expect("every source has text");
    assert_eq!(json.version, SOURCE_MAP_JSON_VERSION);
    assert_eq!(json.generated, "file:///app/src/.generated/App.rs");
    assert_eq!(json.sources, vec!["file:///app/src/App.rsx".to_string()]);
    assert_eq!(json.mappings.len(), 2);
    assert_eq!(json.mappings[0].what.as_deref(), Some("user declaration"));
    assert_eq!(
        json.mappings[0].generated,
        PositionRange::new(Position::new(1, 8), Position::new(1, 12))
    );
    assert_eq!(
        json.mappings[0].sources,
        vec![SourceSpanJson {
            file: 0,
            start: Position::new(1, 8),
            end: Position::new(1, 12)
        }]
    );
    assert!(json.mappings[1].sources.is_empty());

    let round_tripped = json
        .clone()
        .into_source_map(generated_text, &[source_text])
        .expect("valid json converts back");
    assert_eq!(round_tripped, map);
}

#[test]
fn rejects_unsupported_version() {
    let json = SourceMapJson {
        version: 2,
        generated: "g.rs".into(),
        sources: vec![],
        comment: None,
        mappings: vec![],
    };
    let err = json.into_source_map("", &[]).unwrap_err();
    assert_eq!(err, FromJsonError::UnsupportedVersion { found: 2 });
}

#[test]
fn rejects_out_of_range_source_index() {
    let json = SourceMapJson {
        version: 1,
        generated: "g.rs".into(),
        sources: vec![
            "s0.rsx".into(),
            "s1.rsx".into(),
            "s2.rsx".into(),
            "s3.rsx".into(),
        ],
        comment: None,
        mappings: vec![MappingJson {
            kind: MappingKind::Identifier,
            what: None,
            generated: PositionRange::new(Position::new(0, 0), Position::new(0, 1)),
            sources: vec![SourceSpanJson {
                file: 3,
                start: Position::new(0, 0),
                end: Position::new(0, 1),
            }],
        }],
    };
    let err = json.into_source_map("x", &["s"]).unwrap_err();
    assert_eq!(
        err,
        FromJsonError::SourceIndexOutOfRange {
            index: 3,
            available: 1
        }
    );
}

#[test]
fn rejects_an_inverted_generated_range() {
    let json = SourceMapJson {
        version: 1,
        generated: "g.rs".into(),
        sources: vec![],
        comment: None,
        mappings: vec![MappingJson {
            kind: MappingKind::Identifier,
            what: None,
            generated: PositionRange::new(Position::new(0, 2), Position::new(0, 1)),
            sources: vec![],
        }],
    };
    let err = json.into_source_map("abcdef", &[]).unwrap_err();
    assert_eq!(
        err,
        FromJsonError::InvertedRange {
            start: Position::new(0, 2),
            end: Position::new(0, 1),
        }
    );
}

#[test]
fn rejects_an_inverted_source_range() {
    let json = SourceMapJson {
        version: 1,
        generated: "g.rs".into(),
        sources: vec!["a.rsx".into()],
        comment: None,
        mappings: vec![MappingJson {
            kind: MappingKind::Identifier,
            what: None,
            generated: PositionRange::new(Position::new(0, 0), Position::new(0, 1)),
            sources: vec![SourceSpanJson {
                file: 0,
                start: Position::new(1, 0),
                end: Position::new(0, 4),
            }],
        }],
    };
    let err = json.into_source_map("abcdef", &["hello"]).unwrap_err();
    assert_eq!(
        err,
        FromJsonError::InvertedRange {
            start: Position::new(1, 0),
            end: Position::new(0, 4),
        }
    );
}

#[test]
fn rejects_a_source_index_absent_from_the_declared_sources() {
    let json = SourceMapJson {
        version: 1,
        generated: "g.rs".into(),
        sources: vec![],
        comment: None,
        mappings: vec![MappingJson {
            kind: MappingKind::Identifier,
            what: None,
            generated: PositionRange::new(Position::new(0, 0), Position::new(0, 1)),
            sources: vec![SourceSpanJson {
                file: 0,
                start: Position::new(0, 0),
                end: Position::new(0, 1),
            }],
        }],
    };
    let err = json.into_source_map("abcdef", &["hello"]).unwrap_err();
    assert_eq!(
        err,
        FromJsonError::SourceIndexNotDeclared {
            index: 0,
            declared: 0
        }
    );
}

#[test]
fn to_json_rejects_a_source_without_text() {
    let map = SourceMap::new(Uri::new("file:///g.rs"), vec![Uri::new("file:///a.rsx")])
        .with_mapping(Mapping::new(
            Span::new(0, 4),
            vec![SourceSpan::new(SourceId(0), Span::new(0, 4))],
            MappingKind::Expression,
        ));

    let err = map.to_json("abcdef", &[]).unwrap_err();
    assert_eq!(
        err,
        ToJsonError::MissingSourceText {
            index: 0,
            available: 0
        }
    );
}

#[test]
fn to_json_rejects_an_undeclared_source_id() {
    let map = SourceMap::new(Uri::new("file:///g.rs"), vec![]).with_mapping(Mapping::new(
        Span::new(0, 4),
        vec![SourceSpan::new(SourceId(2), Span::new(0, 4))],
        MappingKind::Expression,
    ));

    let err = map.to_json("abcdef", &["x", "y", "z"]).unwrap_err();
    assert_eq!(
        err,
        ToJsonError::UnknownSourceId {
            index: 2,
            declared: 0
        }
    );
}
