use outou::response::{is_layout_line, is_layout_only, sanitize_hover_text};

#[test]
fn sanitize_hover_text_drops_a_pure_backend_module_line() {
    let mut text = "dioxus_html::elements\n\npub mod main\n\nBuild a <main> element.".to_string();
    assert!(sanitize_hover_text(&mut text, &[]));
    assert!(!text.contains("dioxus_html"));
    assert!(text.contains("pub mod main"));
}

#[test]
fn sanitize_hover_text_rewrites_private_path_prefixes() {
    let mut text = "pub fn UserCard(::outou::__private::dioxus_core::Props) -> Element".to_string();
    assert!(sanitize_hover_text(&mut text, &[]));
    assert!(!text.contains("::outou::__private::"));
    assert!(!text.contains("dioxus_core::"));
}

#[test]
fn sanitize_hover_text_drops_a_hover_that_is_entirely_backend_vocabulary() {
    let mut text = "dioxus_core::PropsBuilder".to_string();
    assert!(!sanitize_hover_text(&mut text, &[]));
}

#[test]
fn sanitize_hover_text_keeps_an_unrelated_props_suffixed_type() {
    let mut text = "pub fn Card2(config: MyProps) -> Element".to_string();
    assert!(sanitize_hover_text(&mut text, &[]));
    assert!(text.contains("MyProps"));
}

#[test]
fn sanitize_hover_text_drops_a_real_components_props_type() {
    let mut text = "pub struct GreetingProps { name: String }".to_string();
    assert!(!sanitize_hover_text(&mut text, &["Greeting".to_string()]));
}

#[test]
fn sanitize_hover_text_drops_content_that_is_only_markdown_layout() {
    let mut text = "## Usage in rsx\n\n```rust\n```".to_string();
    assert!(!sanitize_hover_text(&mut text, &[]));
}

#[test]
fn sanitize_hover_text_joins_the_surviving_lines_with_line_feeds() {
    let mut text = "```rust\r\nfn a()\r\nuses dioxus::x\n```\n".to_string();
    assert!(sanitize_hover_text(&mut text, &[]));
    assert_eq!(text, "```rust\nfn a()\nuses x\n```");
}

#[test]
fn sanitize_hover_text_drops_lines_with_backend_markers_after_stripping() {
    let mut text = "fn f()\nrsx! { div {} }\nok".to_string();
    assert!(sanitize_hover_text(&mut text, &[]));
    assert_eq!(text, "fn f()\nok");
}

#[test]
fn layout_lines_are_fences_headings_and_blanks() {
    assert!(is_layout_line("   "));
    assert!(is_layout_line("```"));
    assert!(is_layout_line("  ```rust  "));
    assert!(!is_layout_line("```rust x"));
    assert!(is_layout_line("##---==="));
    assert!(!is_layout_line("## ---"));
    assert!(is_layout_line("***"));
    assert!(!is_layout_line("## Title"));
    assert!(is_layout_only("```\n\n---\n"));
    assert!(!is_layout_only("```\ncode\n```"));
}

use outou::response::{leaks_backend, sanitize_hover_contents, CompletionTexts, HoverContents, HoverPart};

#[test]
fn hover_contents_drop_marked_strings_left_empty_and_keep_the_rest() {
    let mut contents = HoverContents::Parts(vec![
        HoverPart { index: 0, text: Some("impl IntoDynNode for GeneratedNode".to_string()) },
        HoverPart { index: 1, text: Some("pub fn greet()".to_string()) },
        HoverPart { index: 2, text: None },
    ]);
    assert!(sanitize_hover_contents(&mut contents, &[]));
    match contents {
        HoverContents::Parts(parts) => {
            assert_eq!(parts.len(), 2);
            assert_eq!(parts[0].index, 1);
            assert_eq!(parts[0].text.as_deref(), Some("pub fn greet()"));
            assert_eq!(parts[1].index, 2);
            assert_eq!(parts[1].text, None);
        }
        other => panic!("expected parts, got {other:?}"),
    }
}

#[test]
fn hover_contents_with_every_marked_string_dropped_are_not_worth_showing() {
    let mut contents = HoverContents::Parts(vec![HoverPart { index: 0, text: Some("rsx! { div {} }".to_string()) }]);
    assert!(!sanitize_hover_contents(&mut contents, &[]));
}

#[test]
fn hover_markup_value_is_rewritten_in_place() {
    let mut contents = HoverContents::Valued("fn f(p: dioxus_core::Props)".to_string());
    assert!(sanitize_hover_contents(&mut contents, &[]));
    match contents {
        HoverContents::Valued(text) => assert_eq!(text, "fn f(p: Props)"),
        other => panic!("expected a value, got {other:?}"),
    }
    let mut opaque = HoverContents::Opaque;
    assert!(sanitize_hover_contents(&mut opaque, &[]));
    let mut text = HoverContents::Text("```rust\n```".to_string());
    assert!(!sanitize_hover_contents(&mut text, &[]));
}

fn texts(label: &str) -> CompletionTexts {
    CompletionTexts {
        label: Some(label.to_string()),
        detail: None,
        documentation: None,
        filter_text: None,
        insert_text: None,
        label_detail: None,
        label_description: None,
    }
}

#[test]
fn is_backend_leak_flags_props_builder_internals_only_in_a_builder_context() {
    let leak = CompletionTexts { detail: Some("fn(self) -> UserCardPropsBuilder<((User,),)>".to_string()), ..texts("build") };
    assert!(leaks_backend(&leak));
    let ordinary = CompletionTexts { detail: Some("fn build_something()".to_string()), ..texts("build") };
    assert!(!leaks_backend(&ordinary));
}

#[test]
fn is_backend_leak_scans_label_details_and_insert_text() {
    assert!(leaks_backend(&CompletionTexts { label_description: Some("dioxus_core::Props".to_string()), ..texts("Props") }));
    assert!(leaks_backend(&CompletionTexts { insert_text: Some("dioxus_core::something".to_string()), ..texts("x") }));
    assert!(!leaks_backend(&CompletionTexts { label_description: Some("core::option".to_string()), ..texts("unwrap") }));
}

#[test]
fn is_backend_leak_flags_dioxus_module_labels() {
    assert!(leaks_backend(&texts("dioxus_core::")));
    assert!(leaks_backend(&texts("__TEMPLATE_ROOTS")));
    assert!(leaks_backend(&texts("GreetingProps")));
    assert!(!leaks_backend(&texts("unwrap")));
}

#[test]
fn is_backend_leak_flags_usage_headings_and_builder_conversions() {
    assert!(leaks_backend(&CompletionTexts { documentation: Some("Usage in rsx".to_string()), ..texts("div") }));
    assert!(leaks_backend(&CompletionTexts { detail: Some("GreetingBuilder".to_string()), ..texts("into(as Into)") }));
    assert!(leaks_backend(&CompletionTexts { filter_text: Some("__private".to_string()), ..texts("x") }));
    assert!(!leaks_backend(&CompletionTexts { detail: Some("fn(self) -> PropsOwner".to_string()), ..texts("x") }));
}

use outou::response::keep_completion_item;
use outou::{LineIndex, Mapping, MappingKind, Position, PositionRange, Registry, SourceId, SourceMap, SourceSpan, Span, Uri};

struct CompletionWorkspace {
    registry: Registry,
    units: Vec<(Uri, LineIndex)>,
    docs: Vec<(Uri, LineIndex)>,
    generated: Uri,
}

fn completion_workspace() -> CompletionWorkspace {
    let rsx = Uri::new("file:///app/src/main.rsx");
    let generated = Uri::new("file:///app/src/.generated/main.rs");
    let map = SourceMap::new(generated.duplicate(), vec![rsx.duplicate()]).with_mapping(Mapping::new(
        Span::new(30, 34),
        vec![SourceSpan::new(SourceId(0), Span::new(4, 8))],
        MappingKind::Identifier,
    ));
    let generated_text = format!("{}user{}", "x".repeat(30), "y".repeat(10));
    CompletionWorkspace {
        registry: Registry::new().with_map(map),
        units: vec![(generated.duplicate(), LineIndex::new(&generated_text))],
        docs: vec![(rsx, LineIndex::new("let user = load_user();\n"))],
        generated,
    }
}

fn edit(sc: u32, ec: u32) -> Option<PositionRange> {
    Some(PositionRange::new(Position::new(0, sc), Position::new(0, ec)))
}

fn keeps(w: &CompletionWorkspace, e: Option<PositionRange>, cursor: u32, rsx_cursor: u32, label: &str) -> bool {
    keep_completion_item(
        &w.registry,
        &w.units,
        &w.docs,
        &w.generated,
        e,
        Position::new(0, cursor),
        Position::new(0, rsx_cursor),
        &texts(label),
    )
}

#[test]
fn a_completion_whose_edit_spans_both_cursors_is_kept() {
    let w = completion_workspace();
    assert!(keeps(&w, edit(30, 34), 32, 6, "user_name"));
    assert!(keeps(&w, None, 32, 6, "unwrap"));
}

#[test]
fn a_completion_whose_edit_misses_the_generated_cursor_is_dropped() {
    let w = completion_workspace();
    assert!(!keeps(&w, edit(0, 2), 32, 6, "user_name"));
}

#[test]
fn a_completion_whose_mapped_edit_misses_the_rsx_cursor_is_dropped() {
    let w = completion_workspace();
    assert!(!keeps(&w, edit(30, 34), 32, 10, "user_name"));
}

#[test]
fn a_leaking_completion_is_dropped_even_where_its_edit_fits() {
    let w = completion_workspace();
    assert!(!keeps(&w, edit(30, 34), 32, 6, "GreetingProps"));
    assert!(!keeps(&w, None, 32, 6, "__TEMPLATE_ROOTS"));
}

#[test]
fn an_unmapped_completion_edit_is_checked_as_it_stands() {
    let w = completion_workspace();
    assert!(keeps(&w, edit(36, 38), 37, 37, "user_name"));
    assert!(!keeps(&w, edit(36, 38), 37, 6, "user_name"));
}
