use outou::outou_tokens::{
    attribute_name_token, is_component_name, is_event_attribute, named_tokens_absolute, tag_name_token,
    text_token, NamedToken,
};
use outou::{AbsoluteToken, Legend, LineIndex, Span, ATTRIBUTE_TYPE, COMPONENT_TYPE, ELEMENT_TYPE, EVENT_TYPE, TEXT_TYPE};

#[test]
fn an_uppercase_tag_names_a_component() {
    assert!(is_component_name("UserCard"));
    assert!(!is_component_name("div"));
    assert!(!is_component_name(""));
    assert!(!is_component_name("Émile"));
    assert_eq!(tag_name_token(Span::new(1, 9), "Greeting").legend_name, COMPONENT_TYPE);
    assert_eq!(tag_name_token(Span::new(1, 4), "div").legend_name, ELEMENT_TYPE);
}

#[test]
fn an_on_prefixed_attribute_names_an_event() {
    assert!(is_event_attribute("onClick"));
    assert!(is_event_attribute("oninput"));
    assert!(!is_event_attribute("on"));
    assert!(!is_event_attribute("class"));
    assert_eq!(attribute_name_token(Span::new(0, 7), "onClick").legend_name, EVENT_TYPE);
    assert_eq!(attribute_name_token(Span::new(0, 5), "class").legend_name, ATTRIBUTE_TYPE);
}

#[test]
fn blank_text_gets_no_token() {
    assert_eq!(text_token(Span::new(0, 3), " \n\t"), None);
    let t = text_token(Span::new(4, 6), " hi ").unwrap();
    assert_eq!(t.legend_name, TEXT_TYPE);
    assert_eq!(t.span, Span::new(4, 6));
}

#[test]
fn named_tokens_become_legend_indexed_line_tokens() {
    let source = "fn f() { <Greeting>hi</Greeting> }";
    let line_index = LineIndex::new(source);
    let legend = Legend::default_legend();
    let named = vec![
        tag_name_token(Span::new(10, 18), "Greeting"),
        text_token(Span::new(19, 21), "hi").unwrap(),
        NamedToken { span: Span::new(0, 2), legend_name: "no-such-type", modifiers: 0 },
        tag_name_token(Span::new(23, 31), "Greeting"),
    ];
    let tokens = named_tokens_absolute(&named, &line_index, &legend);
    let class = legend.type_index(COMPONENT_TYPE).unwrap();
    let string = legend.type_index(TEXT_TYPE).unwrap();
    assert_eq!(
        tokens,
        vec![
            AbsoluteToken { line: 0, start: 10, length: 8, token_type: class, modifiers: 0 },
            AbsoluteToken { line: 0, start: 19, length: 2, token_type: string, modifiers: 0 },
            AbsoluteToken { line: 0, start: 23, length: 8, token_type: class, modifiers: 0 },
        ]
    );
}
