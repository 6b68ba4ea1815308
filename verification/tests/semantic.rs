use outou::outou_tokens::{tag_name_token, text_token, NamedToken};
use outou::semantic::{local_only_tokens, rewrite_tokens};
use outou::{
    decode, Legend, LineIndex, Mapping, MappingKind, SemanticToken, SourceId, SourceMap, SourceSpan, Span, Uri,
    COMPONENT_TYPE,
};

fn ra(delta_line: u32, delta_start: u32, length: u32, token_type: u32) -> SemanticToken {
    SemanticToken { delta_line, delta_start, length, token_type, token_modifiers_bitset: 0 }
}

struct Fixture {
    map: SourceMap,
    generated: LineIndex,
    docs: Vec<(Uri, LineIndex)>,
    rsx_uri: Uri,
    named: Vec<NamedToken>,
}

fn sample() -> Fixture {
    let rsx_uri = Uri::new("file:///app/src/main.rsx");
    let rsx_source = "fn f() { <Greeting>hi</Greeting> }";
    let open_start = rsx_source.find("Greeting").unwrap() as u32;
    let close_start = rsx_source.rfind("Greeting").unwrap() as u32;
    let map = SourceMap::new(Uri::new("file:///app/src/.generated/main.rs"), vec![rsx_uri.duplicate()])
        .with_mapping(Mapping::new(
            Span::new(8, 16),
            vec![
                SourceSpan::new(SourceId(0), Span::new(open_start, open_start + 8)),
                SourceSpan::new(SourceId(0), Span::new(close_start, close_start + 8)),
            ],
            MappingKind::Identifier,
        ));
    let named = vec![
        tag_name_token(Span::new(open_start, open_start + 8), "Greeting"),
        text_token(Span::new(19, 21), "hi").unwrap(),
        tag_name_token(Span::new(close_start, close_start + 8), "Greeting"),
    ];
    Fixture {
        map,
        generated: LineIndex::new("let _ = Greeting;"),
        docs: vec![(rsx_uri.duplicate(), LineIndex::new(rsx_source))],
        rsx_uri,
        named,
    }
}

fn signature() -> Fixture {
    let rsx_uri = Uri::new("file:///app/src/main.rsx");
    let rsx_source = "fn Greeting(x: i32) {} type";
    let sig_text = "fn Greeting(x: i32) {}";
    let type_start = rsx_source.rfind("type").unwrap() as u32;
    let generated_text = format!("{}{}{}{}", "a".repeat(10), sig_text, "b".repeat(10), "ABCDEF");
    let type_generated_start = 10 + sig_text.len() as u32 + 10;
    let map = SourceMap::new(Uri::new("file:///app/src/.generated/main.rs"), vec![rsx_uri.duplicate()])
        .with_mapping(Mapping::new(
            Span::new(10, 10 + sig_text.len() as u32),
            vec![SourceSpan::new(SourceId(0), Span::new(0, sig_text.len() as u32))],
            MappingKind::Expression,
        ))
        .with_mapping(Mapping::new(
            Span::new(type_generated_start, type_generated_start + 6),
            vec![SourceSpan::new(SourceId(0), Span::new(type_start, type_start + 4))],
            MappingKind::Attribute,
        ));
    Fixture {
        map,
        generated: LineIndex::new(&generated_text),
        docs: vec![(rsx_uri.duplicate(), LineIndex::new(rsx_source))],
        rsx_uri,
        named: Vec::new(),
    }
}

fn rewrite(f: &Fixture, legend: &Legend, data: &[SemanticToken]) -> Vec<SemanticToken> {
    rewrite_tokens(&f.map, &f.generated, &f.docs, &f.rsx_uri, data, &f.named, legend).unwrap()
}

#[test]
fn rewrite_response_emits_a_rust_analyzer_token_at_each_of_its_several_sources() {
    let f = sample();
    let legend = Legend::default_legend();
    let function = legend.type_index("function").unwrap();
    let tokens = rewrite(&f, &legend, &[ra(0, 8, 8, function)]);
    assert!(tokens.iter().all(|t| t.token_type != function));
    let class = legend.type_index(COMPONENT_TYPE).unwrap();
    assert_eq!(tokens.iter().filter(|t| t.token_type == class).count(), 2);
}

#[test]
fn a_rust_analyzer_token_is_emitted_at_each_source_without_an_overlay() {
    let mut f = sample();
    f.named = Vec::new();
    let legend = Legend::default_legend();
    let function = legend.type_index("function").unwrap();
    let tokens = decode(&rewrite(&f, &legend, &[ra(0, 8, 8, function)]));
    let starts: Vec<u32> = tokens.iter().map(|t| t.start).collect();
    assert_eq!(starts, vec![10, 23]);
    assert!(tokens.iter().all(|t| t.token_type == function && t.length == 8));
}

#[test]
fn rewrite_response_never_emits_overlapping_tokens() {
    let f = signature();
    let legend = Legend::default_legend();
    let data = [
        ra(0, 10, 2, legend.type_index("keyword").unwrap()),
        ra(0, 3, 8, legend.type_index("function").unwrap()),
        ra(0, 9, 1, legend.type_index("parameter").unwrap()),
    ];
    let tokens = rewrite(&f, &legend, &data);
    assert!(!tokens.is_empty());
    let absolute = decode(&tokens);
    for pair in absolute.windows(2) {
        let (prev, next) = (pair[0], pair[1]);
        if prev.line == next.line {
            assert!(prev.start + prev.length <= next.start, "overlapping tokens: {prev:?} then {next:?}");
        }
    }
    let starts: Vec<u32> = absolute.iter().map(|t| t.start).collect();
    assert_eq!(starts, vec![0, 3, 12]);
}

#[test]
fn rewrite_response_drops_a_token_inside_a_length_mismatched_mapping() {
    let f = signature();
    let legend = Legend::default_legend();
    let property = legend.type_index("property").unwrap();
    let tokens = rewrite(&f, &legend, &[ra(0, 42, 4, property)]);
    assert!(tokens.iter().all(|t| t.token_type != property));
}

#[test]
fn rewrite_response_drops_a_token_beyond_the_generated_files_last_line() {
    let f = sample();
    let legend = Legend::default_legend();
    let function = legend.type_index("function").unwrap();
    let tokens = rewrite(&f, &legend, &[ra(9999, 0, 1, function)]);
    assert!(tokens.iter().all(|t| t.token_type != function));
}

#[test]
fn rewrite_response_falls_back_to_outou_only_tokens_for_a_null_ra_response() {
    let f = sample();
    let legend = Legend::default_legend();
    let tokens = rewrite(&f, &legend, &[]);
    assert!(!tokens.is_empty());
}

#[test]
fn an_unknown_document_gets_no_answer() {
    let f = sample();
    let legend = Legend::default_legend();
    let other = Uri::new("file:///app/src/other.rsx");
    assert!(rewrite_tokens(&f.map, &f.generated, &f.docs, &other, &[], &f.named, &legend).is_none());
}

#[test]
fn local_only_response_encodes_a_component_tag_as_a_class_token() {
    let f = sample();
    let legend = Legend::default_legend();
    let tokens = local_only_tokens(&f.docs[0].1, &f.named, &legend);
    assert_eq!(tokens.len(), 3);
    let class_index = legend.type_index(COMPONENT_TYPE).unwrap();
    assert_eq!(tokens[0].token_type, class_index);
}
