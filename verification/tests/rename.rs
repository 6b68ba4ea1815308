use outou::edits::TranslatedEdit;
use outou::rename::{
    translate_changes, translate_document_changes, translate_generated_edits, translate_prepare_rename_range,
    DocumentChange, UnmappableRename, FILE_OPERATION_MARKER,
};
use outou::{LineIndex, Mapping, MappingKind, Position, PositionRange, Registry, SourceId, SourceMap, SourceSpan, Span, Uri};

const RSX: &str = "file:///app/src/main.rsx";
const GENERATED: &str = "file:///app/src/.generated/main.rs";
const RSX_SOURCE: &str = "fn f() { <Greeting>hi</Greeting> }";

struct Sample {
    registry: Registry,
    units: Vec<(Uri, LineIndex)>,
    docs: Vec<(Uri, LineIndex)>,
    versions: Vec<(Uri, i32)>,
}

/// One component `<Greeting>hi</Greeting>` whose identifier is mapped
/// from both tags to one generated span.
fn sample_workspace() -> Sample {
    let open_start = RSX_SOURCE.find("Greeting").unwrap() as u32;
    let close_start = RSX_SOURCE.rfind("Greeting").unwrap() as u32;
    let map = SourceMap::new(Uri::new(GENERATED), vec![Uri::new(RSX)]).with_mapping(Mapping::new(
        Span::new(8, 16),
        vec![
            SourceSpan::new(SourceId(0), Span::new(open_start, open_start + 8)),
            SourceSpan::new(SourceId(0), Span::new(close_start, close_start + 8)),
        ],
        MappingKind::Identifier,
    ));
    Sample {
        registry: Registry::new().with_map(map),
        units: vec![(Uri::new(GENERATED), LineIndex::new("let _ = Greeting;"))],
        docs: vec![(Uri::new(RSX), LineIndex::new(RSX_SOURCE))],
        versions: vec![(Uri::new(RSX), 3)],
    }
}

fn range(l0: u32, c0: u32, l1: u32, c1: u32) -> PositionRange {
    PositionRange::new(Position::new(l0, c0), Position::new(l1, c1))
}

fn text_at(r: PositionRange) -> String {
    let index = LineIndex::new(RSX_SOURCE);
    let span = index.range_to_span(r);
    RSX_SOURCE[span.start as usize..span.end as usize].to_string()
}

#[test]
fn translate_workspace_edit_updates_both_the_opening_and_closing_tag() {
    let w = sample_workspace();
    let changes = vec![(Uri::new(GENERATED), vec![(range(0, 8, 0, 16), "Hello".to_string())])];
    let (passthrough, translated) =
        translate_changes(&w.registry, &w.units, &w.docs, &changes).expect("translatable");
    assert!(passthrough.is_empty());
    assert_eq!(translated.len(), 1);
    assert_eq!(translated[0].0, RSX);
    let edits = &translated[0].1;
    assert_eq!(edits.len(), 2, "{edits:#?}");
    for (r, text) in edits {
        assert_eq!(text, "Hello");
        assert_eq!(text_at(*r), "Greeting");
    }
    assert_ne!(edits[0].0, edits[1].0);
}

#[test]
fn translate_workspace_edit_passes_through_an_ordinary_rust_file_edit() {
    let w = sample_workspace();
    let changes = vec![(Uri::new("file:///app/src/other.rs"), vec![(range(1, 0, 1, 5), "Hello".to_string())])];
    let (passthrough, translated) =
        translate_changes(&w.registry, &w.units, &w.docs, &changes).expect("translatable");
    assert_eq!(passthrough, vec![0]);
    assert!(translated.is_empty());
}

#[test]
fn translate_workspace_edit_refuses_when_a_generated_edit_has_no_source() {
    let w = sample_workspace();
    let changes = vec![(Uri::new(GENERATED), vec![(range(0, 0, 0, 3), "xxx".to_string())])];
    let result = translate_changes(&w.registry, &w.units, &w.docs, &changes);
    assert_eq!(result, Err(UnmappableRename { generated_uri: GENERATED.to_string() }));
}

#[test]
fn translate_workspace_edit_deduplicates_document_changes_versioned_with_the_rsx_version() {
    let w = sample_workspace();
    let changes = vec![DocumentChange::Edit {
        uri: Some(Uri::new(GENERATED)),
        edits: vec![(range(0, 8, 0, 16), "Hello".to_string())],
    }];
    let (translated, passthrough) =
        translate_document_changes(&w.registry, &w.units, &w.docs, &w.versions, &changes).expect("translatable");
    assert!(passthrough.is_empty());
    assert_eq!(translated.len(), 1, "{translated:#?}");
    assert_eq!(translated[0].0, RSX);
    // The `.rsx` document's own version, not the generated file's.
    assert_eq!(translated[0].1, Some(3));
    assert_eq!(translated[0].2.len(), 2);
}

#[test]
fn translate_prepare_rename_response_maps_a_bare_range() {
    let w = sample_workspace();
    let mapped =
        translate_prepare_rename_range(&w.registry, &w.units, &w.docs, &Uri::new(GENERATED), range(0, 8, 0, 16))
            .expect("mapped");
    // The first (opening tag) source.
    assert_eq!(text_at(mapped), "Greeting");
    assert_eq!(mapped, range(0, 10, 0, 18));
}

#[test]
fn translate_prepare_rename_response_nulls_out_an_unmappable_position() {
    let w = sample_workspace();
    let mapped =
        translate_prepare_rename_range(&w.registry, &w.units, &w.docs, &Uri::new(GENERATED), range(0, 0, 0, 3));
    assert_eq!(mapped, None);
}

#[test]
fn translate_workspace_edit_refuses_a_resource_op_touching_a_generated_file() {
    let w = sample_workspace();
    let changes = vec![DocumentChange::FileOperation { uris: vec![Uri::new(GENERATED)] }];
    let result = translate_document_changes(&w.registry, &w.units, &w.docs, &w.versions, &changes);
    assert_eq!(
        result.map(|_| ()),
        Err(UnmappableRename { generated_uri: FILE_OPERATION_MARKER.to_string() })
    );
}

#[test]
fn a_file_operation_on_an_ordinary_file_passes_through() {
    let w = sample_workspace();
    let changes = vec![
        DocumentChange::FileOperation { uris: vec![Uri::new("file:///app/src/new.rs")] },
        DocumentChange::Edit { uri: None, edits: vec![(range(0, 0, 0, 1), "x".to_string())] },
        DocumentChange::Edit {
            uri: Some(Uri::new("file:///app/src/lib.rs")),
            edits: vec![(range(0, 0, 0, 1), "x".to_string())],
        },
    ];
    let (translated, passthrough) =
        translate_document_changes(&w.registry, &w.units, &w.docs, &w.versions, &changes).unwrap();
    assert!(translated.is_empty());
    assert_eq!(passthrough, vec![0, 1, 2]);
}

#[test]
fn repeated_generated_edits_are_applied_once() {
    let w = sample_workspace();
    let changes = vec![(
        Uri::new(GENERATED),
        vec![(range(0, 8, 0, 16), "Hello".to_string()), (range(0, 8, 0, 16), "Hello".to_string())],
    )];
    let (_, translated) = translate_changes(&w.registry, &w.units, &w.docs, &changes).unwrap();
    assert_eq!(translated.len(), 1);
    assert_eq!(translated[0].1.len(), 2);
}

#[test]
fn the_first_unmappable_generated_file_names_the_refusal() {
    let w = sample_workspace();
    let changes = vec![
        (Uri::new("file:///app/src/other.rs"), vec![(range(0, 0, 0, 1), "a".to_string())]),
        (Uri::new(GENERATED), vec![(range(0, 8, 0, 16), "Hello".to_string()), (range(0, 0, 0, 3), "b".to_string())]),
    ];
    let result = translate_changes(&w.registry, &w.units, &w.docs, &changes);
    assert_eq!(result, Err(UnmappableRename { generated_uri: GENERATED.to_string() }));
}

#[test]
fn generated_edits_land_at_every_source_with_their_text() {
    let w = sample_workspace();
    let edits = vec![(range(0, 8, 0, 16), "Hello".to_string())];
    let out: Vec<TranslatedEdit> =
        translate_generated_edits(&w.registry, &w.units, &w.docs, &Uri::new(GENERATED), &edits).unwrap();
    assert_eq!(out.len(), 2);
    assert_eq!(out[0].uri.as_str(), RSX);
    assert_eq!(out[0].range, range(0, 10, 0, 18));
    assert_eq!(out[1].range, range(0, 23, 0, 31));
    assert_eq!(out[1].new_text, "Hello");
}

#[test]
fn a_generated_file_without_a_loaded_unit_refuses_its_edits() {
    let w = sample_workspace();
    let edits = vec![(range(0, 8, 0, 16), "Hello".to_string())];
    let result = translate_generated_edits(&w.registry, &Vec::new(), &w.docs, &Uri::new(GENERATED), &edits);
    assert!(result.is_err());
}
