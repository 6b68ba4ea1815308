use outou::modules::{
    candidates, cfg_attr_names_a_path, render_chain, source_kind_from_extension, unraw, DirScope, EntryRefusal,
    GeneratedNames, OpenChain, OpenFile, SourceKind, MAX_MODULE_DEPTH,
};
use outou::paths::relative_to;

#[test]
fn first_occurrence_keeps_the_plain_name() {
    let mut names = GeneratedNames::default();
    assert_eq!(names.next("imp"), "imp");
}

#[test]
fn later_occurrences_get_a_numeric_suffix_in_source_order() {
    let mut names = GeneratedNames::default();
    assert_eq!(names.next("imp"), "imp");
    assert_eq!(names.next("imp"), "imp-1");
    assert_eq!(names.next("imp"), "imp-2");
}

#[test]
fn distinct_names_do_not_affect_each_other() {
    let mut names = GeneratedNames::default();
    assert_eq!(names.next("imp"), "imp");
    assert_eq!(names.next("other"), "other");
    assert_eq!(names.next("imp"), "imp-1");
}

#[test]
fn suffixes_count_past_nine() {
    let mut names = GeneratedNames::new();
    for _ in 0..11 {
        names.next("m");
    }
    assert_eq!(names.next("m"), "m-11");
}

#[test]
fn relative_to_strips_the_base_when_present() {
    assert_eq!(relative_to("/a/b/src/c.rs", "/a/b"), "src/c.rs");
    assert_eq!(relative_to("/x/y.rs", "/a/b"), "/x/y.rs");
}

#[test]
fn relative_to_compares_whole_components() {
    assert_eq!(relative_to("/a/bc/d.rs", "/a/b"), "/a/bc/d.rs");
    assert_eq!(relative_to("/a/b", "/a/b"), "");
    assert_eq!(relative_to("/a/b/c", "/a/b/"), "c");
    assert_eq!(relative_to("src/x.rs", ""), "src/x.rs");
}

#[test]
fn unraw_strips_the_leading_raw_prefix() {
    assert_eq!(unraw("r#type"), "type");
    assert_eq!(unraw("plain"), "plain");
}

#[test]
fn candidates_follow_the_documented_order() {
    let got = candidates("src", "components");
    let expected = vec!["src/components.rsx", "src/components.rs", "src/components/mod.rsx", "src/components/mod.rs"];
    assert_eq!(got, expected);
}

#[test]
fn dir_scope_root_looks_up_directly_in_src_dir() {
    let scope = DirScope::root("src");
    assert_eq!(scope.lookup_dir(), "src");
}

#[test]
fn dir_scope_lookup_dir_joins_relative_when_set() {
    let scope = DirScope { dir: "src".to_string(), relative: Some("plain".to_string()) };
    assert_eq!(scope.lookup_dir(), "src/plain");
}

#[test]
fn dir_scope_child_of_plain_file_descends_one_level_further() {
    let child = DirScope::child_of_file("src/plain.rs", "plain", false);
    assert_eq!(child.dir, "src");
    assert_eq!(child.relative.as_deref(), Some("plain"));
    assert_eq!(child.lookup_dir(), "src/plain");
}

#[test]
fn dir_scope_child_of_mod_rs_style_file_stays_at_its_own_directory() {
    let child = DirScope::child_of_file("src/plain/mod.rs", "plain", true);
    assert_eq!(child.dir, "src/plain");
    assert_eq!(child.relative, None);
    assert_eq!(child.lookup_dir(), "src/plain");
}

#[test]
fn dir_scope_child_of_path_loaded_file_behaves_like_mod_rs() {
    let child = DirScope::child_of_file("src/somewhere/other.rs", "other", true);
    assert_eq!(child.dir, "src/somewhere");
    assert_eq!(child.relative, None);
}

#[test]
fn dir_scope_child_of_inline_without_path_joins_the_lookup_dir() {
    let scope = DirScope { dir: "src".to_string(), relative: Some("plain".to_string()) };
    let child = scope.child_of_inline("boxed", None);
    assert_eq!(child.dir, "src/plain/boxed");
    assert_eq!(child.relative, None);
}

#[test]
fn dir_scope_child_of_inline_with_path_joins_dir_not_lookup_dir() {
    let scope = DirScope { dir: "src".to_string(), relative: Some("plain".to_string()) };
    let child = scope.child_of_inline("scoped", Some("tf"));
    assert_eq!(child.dir, "src/tf");
    assert_eq!(child.relative, None);
}

#[test]
fn source_kind_follows_the_extension() {
    assert_eq!(source_kind_from_extension("src/main.rsx"), SourceKind::Rsx);
    assert_eq!(source_kind_from_extension("src/main.rs"), SourceKind::Rust);
    assert_eq!(source_kind_from_extension("src/.rsx"), SourceKind::Rust);
    assert_eq!(source_kind_from_extension("src/a.b.rsx"), SourceKind::Rsx);
    assert_eq!(source_kind_from_extension("src/dir.rsx/"), SourceKind::Rsx);
    assert_eq!(source_kind_from_extension("src/main"), SourceKind::Rust);
}

#[test]
fn cfg_attr_names_a_path_only_at_the_top_level() {
    assert!(cfg_attr_names_a_path("#[cfg_attr(unix, path = \"unix.rsx\")]"));
    assert!(!cfg_attr_names_a_path("#[cfg_attr(test, ignore)]"));
    assert!(!cfg_attr_names_a_path("#[cfg_attr(all(unix, path), inline)]"));
    assert!(cfg_attr_names_a_path("#[cfg_attr(unix, path)]"));
    assert!(!cfg_attr_names_a_path("#[cfg_attr(unix, pathological = 1)]"));
    assert!(!cfg_attr_names_a_path("cfg_attr"));
    assert!(!cfg_attr_names_a_path(")("));
}

#[test]
fn render_chain_joins_with_arrows() {
    let chain = vec!["src/a.rsx".to_string(), "src/b.rsx".to_string(), "src/a.rsx".to_string()];
    assert_eq!(render_chain(&chain), "src/a.rsx -> src/b.rsx -> src/a.rsx");
    assert_eq!(render_chain(&[]), "");
}

use outou::modules::{choose_candidate, CandidateChoice};
use outou::paths::{crate_relative, normalize_lexically};

#[test]
fn crate_relative_accepts_targets_under_the_crate() {
    assert_eq!(crate_relative("/repo/src/foo.rs", "/repo"), Some("src/foo.rs".to_string()));
}

#[test]
fn crate_relative_rejects_targets_outside_the_crate() {
    assert_eq!(crate_relative("/repo/src/../../outside/foo.rs", "/repo"), None);
}

#[test]
fn crate_relative_rejects_an_absolute_target_outside_the_crate() {
    assert_eq!(crate_relative("/etc/passwd.rs", "/repo"), None);
}

#[test]
fn crate_relative_resolves_dots_before_comparing() {
    assert_eq!(crate_relative("/repo/./src/a/../b.rs", "/repo/"), Some("src/b.rs".to_string()));
    assert_eq!(crate_relative("src/x.rs", ""), Some("src/x.rs".to_string()));
    assert_eq!(crate_relative("/repository/x.rs", "/repo"), None);
}

#[test]
fn normalize_lexically_resolves_dot_components() {
    assert_eq!(normalize_lexically("/a/./b/../c//d/"), "/a/c/d");
    assert_eq!(normalize_lexically("../x"), "x");
    assert_eq!(normalize_lexically("/.."), "/");
    assert_eq!(normalize_lexically("a/b/.."), "a");
}

fn strings(v: &[&str]) -> Vec<String> {
    v.iter().map(|s| s.to_string()).collect()
}

#[test]
fn exactly_one_existing_candidate_is_the_match() {
    let all = candidates("/repo/src", "m");
    match choose_candidate(&all, &vec![false, false, true, false], "/repo") {
        CandidateChoice::Found { path, is_mod_rs_style } => {
            assert_eq!(path, "/repo/src/m/mod.rsx");
            assert!(is_mod_rs_style);
        }
        other => panic!("expected a match, got {other:?}"),
    }
    match choose_candidate(&all, &vec![false, true, false, false], "/repo") {
        CandidateChoice::Found { path, is_mod_rs_style } => {
            assert_eq!(path, "/repo/src/m.rs");
            assert!(!is_mod_rs_style);
        }
        other => panic!("expected a match, got {other:?}"),
    }
}

#[test]
fn no_existing_candidate_lists_every_candidate() {
    let all = candidates("/repo/src", "m");
    match choose_candidate(&all, &vec![false; 4], "/repo") {
        CandidateChoice::NotFound { candidates } => {
            assert_eq!(candidates, strings(&["src/m.rsx", "src/m.rs", "src/m/mod.rsx", "src/m/mod.rs"]));
        }
        other => panic!("expected not found, got {other:?}"),
    }
}

#[test]
fn several_existing_candidates_are_ambiguous() {
    let all = candidates("/repo/src", "m");
    match choose_candidate(&all, &vec![true, false, false, true], "/repo") {
        CandidateChoice::Ambiguous { candidates } => {
            assert_eq!(candidates, strings(&["src/m.rsx", "src/m/mod.rs"]));
        }
        other => panic!("expected ambiguity, got {other:?}"),
    }
}

fn open(path: &str) -> OpenFile {
    OpenFile { canonical: format!("/app/{path}"), relative: path.to_string() }
}

#[test]
fn a_module_reopening_its_own_file_reports_the_chain() {
    let chain = OpenChain::new(open("src/main.rsx"));
    assert_eq!(
        chain.check_entry("/app/src/main.rsx", "src/main.rsx"),
        Err(EntryRefusal::Circular { chain: vec!["src/main.rsx".to_string(), "src/main.rsx".to_string()] })
    );
}

#[test]
fn a_cycle_between_two_files_reports_the_chain() {
    let mut chain = OpenChain::new(open("src/main.rsx"));
    assert_eq!(chain.check_entry("/app/src/b.rsx", "src/b.rsx"), Ok(()));
    chain.enter(open("src/b.rsx"));
    assert_eq!(chain.depth(), 2);
    assert_eq!(
        chain.check_entry("/app/src/main.rsx", "src/main.rsx"),
        Err(EntryRefusal::Circular {
            chain: vec!["src/main.rsx".to_string(), "src/b.rsx".to_string(), "src/main.rsx".to_string()]
        })
    );
    chain.leave();
    assert_eq!(chain.depth(), 1);
}

#[test]
fn nesting_deeper_than_the_limit_is_refused() {
    let mut chain = OpenChain::new(open("src/main.rs"));
    let mut i = 0;
    loop {
        let path = format!("src/m{i}.rs");
        match chain.check_entry(&format!("/app/{path}"), &path) {
            Ok(()) => chain.enter(open(&path)),
            Err(refusal) => {
                assert_eq!(refusal, EntryRefusal::TooDeep { limit: MAX_MODULE_DEPTH });
                break;
            }
        }
        i += 1;
    }
    assert_eq!(chain.depth(), MAX_MODULE_DEPTH);
    assert_eq!(i + 1, MAX_MODULE_DEPTH);
}

#[test]
fn generated_segments_of_one_scope_are_distinct() {
    let mut names = GeneratedNames::new();
    let given: Vec<String> = ["imp", "other", "imp", "imp"].iter().map(|n| names.next(n)).collect();
    assert_eq!(given, vec!["imp", "other", "imp-1", "imp-2"]);
}

#[test]
fn segments_for_a_run_of_siblings_number_each_repeat() {
    let names = vec!["imp".to_string(), "other".to_string(), "imp".to_string(), "imp".to_string()];
    assert_eq!(outou::modules::segments_for(&names), vec!["imp", "other", "imp-1", "imp-2"]);
    assert!(outou::modules::segments_for(&Vec::new()).is_empty());
}
