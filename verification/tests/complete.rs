use outou::complete::{attr_name_labels, function_params, split_top_level_commas, tag_name_labels, CompletionKind};

fn texts(v: Vec<Vec<char>>) -> Vec<String> {
    v.into_iter().map(|c| c.into_iter().collect()).collect()
}

#[test]
fn function_params_extracts_plain_parameter_names() {
    assert_eq!(function_params("fn UserCard(user: User) -> Element"), vec!["user"]);
}

#[test]
fn function_params_strips_the_raw_identifier_prefix() {
    assert_eq!(
        function_params("fn Field(label: String, r#type: String) -> Element"),
        vec!["label", "type"]
    );
}

#[test]
fn function_params_handles_generic_parameter_types() {
    assert_eq!(function_params("fn TagList(tags: Vec<String>) -> Element"), vec!["tags"]);
}

#[test]
fn function_params_skips_receivers_and_mut_bindings() {
    assert_eq!(
        function_params("fn f(&mut self, mut count: u32, self, , map: HashMap<K, V>) -> u8"),
        vec!["count", "map"]
    );
}

#[test]
fn function_params_without_parentheses_is_empty() {
    assert!(function_params("fn broken").is_empty());
    assert!(function_params("fn unclosed(a: u8").is_empty());
    assert!(function_params("fn nothing()").is_empty());
}

#[test]
fn function_params_stops_at_the_matching_parenthesis() {
    assert_eq!(function_params("fn g(f: fn(u8), x: (u8, u16)) -> (u8)"), vec!["f", "x"]);
}

#[test]
fn split_top_level_commas_keeps_nested_commas_together() {
    let s: Vec<char> = "a: Vec<(u8, u16)>, b: [u8; 2],".chars().collect();
    assert_eq!(texts(split_top_level_commas(&s)), vec!["a: Vec<(u8, u16)>", " b: [u8; 2]"]);
}

#[test]
fn completion_kinds_use_the_lsp_numbers() {
    assert_eq!(CompletionKind::Class.lsp_number(), 7);
    assert_eq!(CompletionKind::Field.lsp_number(), 5);
}

fn components() -> Vec<(String, String)> {
    vec![
        ("UserCard".to_string(), "fn UserCard(user: User, r#type: String) -> Element".to_string()),
        ("Greeting".to_string(), "fn Greeting(name: String) -> Element".to_string()),
        ("UserCard".to_string(), "fn UserCard(other: u32) -> Element".to_string()),
    ]
}

#[test]
fn tag_names_offer_matching_components_once_then_html_elements() {
    assert_eq!(tag_name_labels(&components(), "U"), vec!["UserCard".to_string()]);
    assert_eq!(tag_name_labels(&components(), "di"), vec!["div".to_string()]);
    assert_eq!(tag_name_labels(&components(), "h"), vec!["h1", "h2", "h3", "h4", "h5", "h6", "head", "header", "hr", "html"]);
    let all = tag_name_labels(&components(), "");
    assert_eq!(all.len(), 2 + 58);
    assert_eq!(all[0], "UserCard");
    assert_eq!(all[1], "Greeting");
    assert_eq!(all[2], "a");
}

#[test]
fn attribute_names_are_the_first_components_parameters() {
    assert_eq!(attr_name_labels(&components(), Some("UserCard"), ""), vec!["user", "type"]);
    assert_eq!(attr_name_labels(&components(), Some("UserCard"), "t"), vec!["type"]);
    assert!(attr_name_labels(&components(), Some("div"), "c").is_empty());
    assert!(attr_name_labels(&components(), None, "").is_empty());
    assert!(attr_name_labels(&components(), Some("Unknown"), "").is_empty());
}
