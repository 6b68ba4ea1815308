use outou::edits::{dedup_edits, dedup_locations, group_by_uri, primary_edit_contains_cursor, range_contains, TranslatedEdit};
use outou::modules::{module_shape_differs, ModuleDescriptor};
use outou::{Position, PositionRange, Uri};

fn range(sl: u32, sc: u32, el: u32, ec: u32) -> PositionRange {
    PositionRange::new(Position::new(sl, sc), Position::new(el, ec))
}

fn edit(uri: &str, r: PositionRange, text: &str) -> TranslatedEdit {
    TranslatedEdit { uri: Uri::new(uri), range: r, new_text: text.to_string() }
}

#[test]
fn primary_edit_contains_cursor_accepts_an_edit_that_spans_the_cursor() {
    assert!(primary_edit_contains_cursor(Some(range(0, 5, 0, 5)), Position::new(0, 5)));
}

#[test]
fn primary_edit_contains_cursor_rejects_an_edit_far_from_the_cursor() {
    assert!(!primary_edit_contains_cursor(Some(range(0, 8, 0, 8)), Position::new(0, 19)));
}

#[test]
fn items_with_no_text_edit_are_never_dropped_for_the_cursor_check() {
    assert!(primary_edit_contains_cursor(None, Position::new(3, 1)));
}

#[test]
fn range_contains_compares_line_then_character() {
    assert!(range_contains(range(1, 9, 3, 0), Position::new(2, 100)));
    assert!(!range_contains(range(1, 9, 3, 0), Position::new(1, 8)));
    assert!(range_contains(range(1, 9, 3, 0), Position::new(3, 0)));
    assert!(!range_contains(range(1, 9, 3, 0), Position::new(3, 1)));
}

#[test]
fn dedup_edits_keeps_the_first_of_identical_edits() {
    let edits = vec![
        edit("file:///a.rsx", range(0, 1, 0, 9), "Hello"),
        edit("file:///a.rsx", range(0, 1, 0, 9), "Hello"),
        edit("file:///a.rsx", range(0, 1, 0, 9), "Other"),
        edit("file:///b.rsx", range(0, 1, 0, 9), "Hello"),
    ];
    let kept = dedup_edits(&edits);
    assert_eq!(kept.len(), 3);
    assert_eq!(kept[1].new_text, "Other");
    assert_eq!(kept[2].uri.as_str(), "file:///b.rsx");
}

#[test]
fn dedup_locations_drops_repeats() {
    let locations = vec![
        (Uri::new("file:///a.rsx"), range(1, 0, 1, 4)),
        (Uri::new("file:///a.rsx"), range(2, 0, 2, 4)),
        (Uri::new("file:///a.rsx"), range(1, 0, 1, 4)),
    ];
    let kept = dedup_locations(&locations);
    assert_eq!(kept.len(), 2);
    assert_eq!(kept[1].1, range(2, 0, 2, 4));
}

#[test]
fn group_by_uri_keeps_first_appearance_order() {
    let edits = vec![
        edit("file:///b.rsx", range(0, 0, 0, 1), "x"),
        edit("file:///a.rsx", range(1, 0, 1, 1), "y"),
        edit("file:///b.rsx", range(2, 0, 2, 1), "z"),
    ];
    let grouped = group_by_uri(&edits);
    assert_eq!(grouped.len(), 2);
    assert_eq!(grouped[0].0, "file:///b.rsx");
    assert_eq!(grouped[0].1.len(), 2);
    assert_eq!(grouped[0].1[1].1, "z");
    assert_eq!(grouped[1].0, "file:///a.rsx");
}

fn descriptor(name: &str, path: Option<&str>, inline: bool) -> ModuleDescriptor {
    ModuleDescriptor { name: name.to_string(), path_attr: path.map(|p| p.to_string()), is_inline: inline }
}

#[test]
fn a_changed_path_target_changes_the_shape() {
    let before = vec![descriptor("imp", Some("a.rsx"), false)];
    let after = vec![descriptor("imp", Some("b.rsx"), false)];
    assert!(module_shape_differs(&before, &after));
    assert!(!module_shape_differs(&before, &before.clone()));
}

#[test]
fn switching_inline_and_file_based_changes_the_shape() {
    let before = vec![descriptor("m", None, false)];
    let after = vec![descriptor("m", None, true)];
    assert!(module_shape_differs(&before, &after));
}

#[test]
fn reordering_or_adding_declarations_changes_the_shape() {
    let a = descriptor("a", None, false);
    let b = descriptor("b", None, false);
    assert!(module_shape_differs(&[a.clone(), b.clone()], &[b.clone(), a.clone()]));
    assert!(module_shape_differs(&[a.clone()], &[a.clone(), b]));
}
