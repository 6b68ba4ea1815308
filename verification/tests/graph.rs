use outou::graph::{ModuleGraph, ModuleNode};
use outou::modules::SourceKind;

fn leaf(path: &[&str], file: &str) -> ModuleNode {
    let generated: Vec<String> = path.iter().map(|s| s.to_string()).collect();
    ModuleNode {
        path: path.iter().map(|s| s.to_string()).collect(),
        file: file.to_string(),
        kind: SourceKind::Rsx,
        declared_in: if path.is_empty() { None } else { Some(file.to_string()) },
        visibility: None,
        is_inline: false,
        cfg: Vec::new(),
        attributes: Vec::new(),
        span: None,
        generated,
        children: Vec::new(),
    }
}

#[test]
fn generated_path_root_uses_the_reserved_stem() {
    let root = leaf(&[], "src/lib.rsx");
    assert_eq!(root.generated_path("src"), "src/.generated/crate-root.rs");
}

#[test]
fn generated_path_for_a_child_mirrors_its_module_path() {
    let node = leaf(&["components", "user"], "src/components/user.rsx");
    assert_eq!(node.generated_path("src"), "src/.generated/components/user.rs");
}

#[test]
fn generated_path_disambiguates_duplicate_siblings() {
    let mut node = leaf(&["imp"], "src/windows.rsx");
    node.generated = vec!["imp-1".to_string()];
    assert_eq!(node.generated_path("src"), "src/.generated/imp-1.rs");
}

#[test]
fn generated_path_unraws_segments() {
    let mut node = leaf(&["r#type"], "src/type.rsx");
    node.generated = vec!["type".to_string()];
    assert_eq!(node.generated_path("src"), "src/.generated/type.rs");
}

#[test]
fn generated_path_replaces_an_existing_extension() {
    let mut node = leaf(&["m"], "src/m.rsx");
    node.generated = vec!["a".to_string(), "b.c".to_string()];
    assert_eq!(node.generated_path("src"), "src/.generated/a/b.rs");
    node.generated = vec![".hidden".to_string()];
    assert_eq!(node.generated_path("src"), "src/.generated/.hidden.rs");
}

fn sample_graph(button_kind: SourceKind) -> ModuleGraph {
    let mut button = leaf(&["components", "button"], "src/components/button.rs");
    button.kind = button_kind;
    let user = leaf(&["components", "user"], "src/components/user.rsx");
    let mut components = leaf(&["components"], "src/components.rsx");
    components.children = vec![button, user];
    let mut root = leaf(&[], "src/main.rsx");
    root.children = vec![components];
    ModuleGraph { root }
}

#[test]
fn iter_is_depth_first_pre_order() {
    let graph = sample_graph(SourceKind::Rsx);
    let paths: Vec<Vec<String>> = graph.iter().into_iter().map(|node| node.path.clone()).collect();
    assert_eq!(
        paths,
        vec![
            Vec::<String>::new(),
            vec!["components".to_string()],
            vec!["components".to_string(), "button".to_string()],
            vec!["components".to_string(), "user".to_string()],
        ]
    );
}

#[test]
fn rsx_files_filters_by_kind() {
    let graph = sample_graph(SourceKind::Rust);
    let rsx: Vec<String> = graph.rsx_files().into_iter().map(|node| node.file.clone()).collect();
    assert_eq!(rsx, vec!["src/main.rsx", "src/components.rsx", "src/components/user.rsx"]);
}

#[test]
fn graph_generated_units_skips_inline_modules() {
    let mut inline_tests = leaf(&["components", "tests"], "src/components.rsx");
    inline_tests.is_inline = true;
    let mut components = leaf(&["components"], "src/components.rsx");
    components.children = vec![inline_tests];
    let mut root = leaf(&[], "src/main.rsx");
    root.children = vec![components];
    let graph = ModuleGraph { root };
    let units: Vec<String> = graph.generated_units().into_iter().map(|n| n.file.clone()).collect();
    assert_eq!(units, vec!["src/main.rsx", "src/components.rsx"]);
}
