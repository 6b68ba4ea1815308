use outou::uri_path::{file_uri_to_path, hex_val, percent_decode, percent_decode_bytes};

#[test]
fn hex_digits_have_their_values() {
    assert_eq!(hex_val(b'0'), Some(0));
    assert_eq!(hex_val(b'9'), Some(9));
    assert_eq!(hex_val(b'a'), Some(10));
    assert_eq!(hex_val(b'F'), Some(15));
    assert_eq!(hex_val(b'g'), None);
    assert_eq!(hex_val(b'%'), None);
}

#[test]
fn percent_escapes_decode_to_their_bytes() {
    assert_eq!(percent_decode("/a%20b/c.rsx"), "/a b/c.rsx");
    assert_eq!(percent_decode("%C3%A9t%C3%A9"), "été");
}

#[test]
fn a_malformed_escape_passes_through() {
    assert_eq!(percent_decode("100%"), "100%");
    assert_eq!(percent_decode("%2"), "%2");
    assert_eq!(percent_decode("%zz%41"), "%zzA");
    assert_eq!(percent_decode("%%41"), "%A");
}

#[test]
fn invalid_utf8_is_replaced() {
    assert_eq!(percent_decode_bytes(b"%FF"), vec![0xFF]);
    assert_eq!(percent_decode("a%FFb"), "a\u{FFFD}b");
}

#[test]
fn text_without_escapes_is_unchanged() {
    assert_eq!(percent_decode("/app/src/main.rsx"), "/app/src/main.rsx");
}

#[test]
fn a_file_uri_names_its_decoded_path() {
    assert_eq!(file_uri_to_path("file:///app/src/my%20file.rsx").as_deref(), Some("/app/src/my file.rsx"));
    assert_eq!(file_uri_to_path("file:///plain").as_deref(), Some("/plain"));
    assert_eq!(file_uri_to_path("untitled:Untitled-1"), None);
    assert_eq!(file_uri_to_path("file:/"), None);
}
