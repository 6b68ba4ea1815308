use outou::paths::{file_name, join_path, parent_dir};

#[test]
fn join_inserts_one_separator() {
    assert_eq!(join_path("src", "a.rs"), "src/a.rs");
    assert_eq!(join_path("src/", "a.rs"), "src/a.rs");
    assert_eq!(join_path("", "a.rs"), "a.rs");
    assert_eq!(join_path("src", "/abs/a.rs"), "/abs/a.rs");
}

#[test]
fn parent_drops_the_last_component() {
    assert_eq!(parent_dir("src/plain.rs"), "src");
    assert_eq!(parent_dir("src/plain/mod.rs"), "src/plain");
    assert_eq!(parent_dir("plain.rs"), "");
    assert_eq!(parent_dir("/a"), "/");
    assert_eq!(parent_dir("/"), "");
    assert_eq!(parent_dir("a/b/"), "a");
}

#[test]
fn file_name_is_the_last_component() {
    assert_eq!(file_name("src/main.rsx"), "main.rsx");
    assert_eq!(file_name("main.rsx"), "main.rsx");
    assert_eq!(file_name("src/dir/"), "dir");
}
