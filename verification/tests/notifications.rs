use outou::notifications::{is_outou_rsx, is_rsx_uri, resync_overlays, save_blocked_notice, OverlaySync};

#[test]
fn notify_save_blocked_by_another_file_warns_with_the_broken_files_name() {
    let message = save_blocked_notice(
        "file:///app/src/main.rsx",
        "file:///app/src/components.rsx",
        "components.rsx",
    )
    .expect("a notice");
    assert!(message.contains("components.rsx"), "message must name the broken file: {message}");
    assert_eq!(
        message,
        "outou: this save was not written because `components.rsx` has a syntax error; fix it and save again"
    );
}

#[test]
fn notify_save_blocked_by_another_file_is_silent_for_the_saved_file_itself() {
    assert_eq!(
        save_blocked_notice("file:///app/src/main.rsx", "file:///app/src/main.rsx", "main.rsx"),
        None
    );
}

#[test]
fn outou_documents_are_known_by_language_id_or_extension() {
    assert!(is_outou_rsx("file:///a/b.txt", "outou-rsx"));
    assert!(is_outou_rsx("file:///a/main.rsx", "plaintext"));
    assert!(!is_outou_rsx("file:///a/main.rs", "rust"));
    assert!(is_rsx_uri("x.rsx"));
    assert!(!is_rsx_uri("rsx"));
    assert!(!is_rsx_uri("file:///a/main.rsx.bak"));
}

#[test]
fn resync_closes_vanished_overlays_and_counts_versions_up() {
    let prev = vec![("file:///g/a.rs".to_string(), 4), ("file:///g/gone.rs".to_string(), 2)];
    let now = vec!["file:///g/new.rs".to_string(), "file:///g/a.rs".to_string()];
    let (closes, actions) = resync_overlays(&prev, &now);
    assert_eq!(closes, vec!["file:///g/gone.rs".to_string()]);
    assert_eq!(
        actions,
        vec![
            OverlaySync::Open { uri: "file:///g/new.rs".to_string() },
            OverlaySync::Change { uri: "file:///g/a.rs".to_string(), version: 5 },
        ]
    );
}

#[test]
fn resync_with_nothing_open_before_opens_every_unit() {
    let (closes, actions) = resync_overlays(&Vec::new(), &vec!["u".to_string()]);
    assert!(closes.is_empty());
    assert_eq!(actions, vec![OverlaySync::Open { uri: "u".to_string() }]);
}
