use outou::broker::{
    disposition, rename_refusal_message, sanitize_ra_error_message, Broker, Disposition, Pending, PendingKind,
    RequestId, CONTENT_MODIFIED, REQUEST_CANCELLED,
};
use outou::{Position, Uri};

#[test]
fn next_forwarded_client_id_never_repeats() {
    let mut broker = Broker::new();
    let a = broker.next_forwarded_client_id();
    let b = broker.next_forwarded_client_id();
    assert_ne!(a, b);
    assert_eq!(a, RequestId::Number(1_000_000_000));
}

#[test]
fn resolve_cancel_target_rewrites_the_editor_id_to_the_ra_id() {
    let mut broker = Broker::new();
    broker.track(RequestId::Number(42), RequestId::Number(7), PendingKind::Forward, None);
    assert_eq!(broker.resolve_cancel_target(&RequestId::Number(7)), Some(RequestId::Number(42)));
}

#[test]
fn resolve_cancel_target_is_none_for_an_unknown_editor_id() {
    let broker = Broker::new();
    assert_eq!(broker.resolve_cancel_target(&RequestId::Number(999)), None);
}

#[test]
fn fail_all_pending_answers_every_in_flight_request_with_an_error() {
    let mut broker = Broker::new();
    broker.track(RequestId::Number(1), RequestId::Number(10), PendingKind::Forward, None);
    broker.track(RequestId::Number(2), RequestId::Number(11), PendingKind::Definition, None);
    let failed = broker.fail_all();
    assert_eq!(failed, vec![RequestId::Number(10), RequestId::Number(11)]);
    assert!(broker.take_pending(&RequestId::Number(1)).is_none());
    assert!(broker.fail_all().is_empty());
}

#[test]
fn dispatch_client_response_consumes_the_reverse_pending_entry() {
    let mut broker = Broker::new();
    let forwarded = broker.forward_to_client(RequestId::Number(5));
    assert_eq!(broker.route_client_response(&forwarded), Some(RequestId::Number(5)));
    assert_eq!(broker.route_client_response(&forwarded), None);
}

#[test]
fn dispatch_client_response_ignores_an_unknown_id() {
    let mut broker = Broker::new();
    assert_eq!(broker.route_client_response(&RequestId::Number(1)), None);
}

#[test]
fn handle_ra_response_cancels_a_response_from_a_stale_epoch() {
    let mut broker = Broker::new();
    broker.track(RequestId::Number(1), RequestId::Number(1), PendingKind::Forward, None);
    broker.bump_epoch();
    let pending = broker.take_pending(&RequestId::Number(1)).unwrap();
    assert_eq!(disposition(&pending, broker.epoch(), None), Disposition::Cancelled);
    assert_eq!(REQUEST_CANCELLED, -32800);
}

#[test]
fn a_changed_document_refuses_a_rename_and_nulls_a_prepare_rename() {
    let rename = Pending {
        client_id: RequestId::Number(3),
        kind: PendingKind::Rename,
        epoch: 0,
        rsx_document: Some(("file:///app/src/main.rsx".to_string(), 4)),
    };
    assert_eq!(disposition(&rename, 0, Some(5)), Disposition::ContentModified);
    assert_eq!(disposition(&rename, 0, Some(4)), Disposition::Relay);
    assert_eq!(disposition(&rename, 0, None), Disposition::Relay);
    assert_eq!(CONTENT_MODIFIED, -32801);
    let prepare = Pending {
        client_id: RequestId::Text("p".to_string()),
        kind: PendingKind::PrepareRename { generated_uri: Uri::new("file:///app/src/.generated/main.rs") },
        epoch: 0,
        rsx_document: Some(("file:///app/src/main.rsx".to_string(), 4)),
    };
    assert_eq!(disposition(&prepare, 0, Some(6)), Disposition::NullResult);
}

#[test]
fn a_taken_request_comes_back_as_it_was_tracked() {
    let mut broker = Broker::new();
    broker.track(
        RequestId::Text("ra-9".to_string()),
        RequestId::Number(3),
        PendingKind::Completion {
            generated_uri: Uri::new("file:///g.rs"),
            cursor: Position::new(1, 2),
            rsx_cursor: Position::new(3, 4),
        },
        None,
    );
    broker.track(RequestId::Text("ra-9".to_string()), RequestId::Number(4), PendingKind::References, None);
    let p = broker.take_pending(&RequestId::Text("ra-9".to_string())).unwrap();
    assert_eq!(p.client_id, RequestId::Number(4));
    assert!(matches!(p.kind, PendingKind::References));
    assert!(broker.take_pending(&RequestId::Text("ra-9".to_string())).is_none());
}

#[test]
fn sanitize_ra_error_replaces_a_message_naming_backend_vocabulary() {
    let sanitized = sanitize_ra_error_message("cannot expand `rsx!` here: PropsBuilder mismatch");
    assert!(!sanitized.contains("rsx!"));
    assert!(!sanitized.contains("PropsBuilder"));
}

#[test]
fn sanitize_ra_error_replaces_a_message_naming_a_generated_path() {
    let sanitized = sanitize_ra_error_message("error at src/.generated/main.rs:12:4");
    assert!(!sanitized.contains(".generated"));
}

#[test]
fn sanitize_ra_error_leaves_an_ordinary_message_untouched() {
    let message = "Cannot rename a non-local definition";
    assert_eq!(sanitize_ra_error_message(message), message);
}

#[test]
fn rename_refusal_error_does_not_leak_the_generated_uri() {
    let message = rename_refusal_message();
    assert!(!message.contains(".generated"));
    assert!(!message.contains("file:///"));
}

#[test]
fn a_stale_document_is_named_in_the_content_modified_message() {
    assert_eq!(
        outou::broker::stale_document_message("file:///app/src/main.rsx"),
        "Outou cannot safely answer here: `file:///app/src/main.rsx` changed while this request was in flight"
    );
}
