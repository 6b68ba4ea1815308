use outou::requests::ra_can_serve_semantic_tokens;

#[test]
fn ra_can_serve_semantic_tokens_requires_both_a_live_ra_and_its_advertised_support() {
    assert!(ra_can_serve_semantic_tokens(true, true));
    assert!(!ra_can_serve_semantic_tokens(true, false));
    assert!(!ra_can_serve_semantic_tokens(false, true));
    assert!(!ra_can_serve_semantic_tokens(false, false));
}
