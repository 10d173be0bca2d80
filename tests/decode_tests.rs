use simple_http_server::decode::{url_decode, DecodeError};

#[test]
fn plain_text_is_unchanged() {
    assert_eq!(url_decode("/docs/readme.txt"), Ok("/docs/readme.txt".to_string()));
    assert_eq!(url_decode(""), Ok(String::new()));
    assert_eq!(url_decode("/"), Ok("/".to_string()));
}

#[test]
fn single_byte_escape() {
    assert_eq!(url_decode("/my%20file.txt"), Ok("/my file.txt".to_string()));
    assert_eq!(url_decode("%2F"), Ok("/".to_string()));
    assert_eq!(url_decode("%2e%2E"), Ok("..".to_string()));
}

#[test]
fn multi_byte_character_from_escapes() {
    assert_eq!(url_decode("/caf%C3%A9"), Ok("/café".to_string()));
    assert_eq!(url_decode("/caf%c3%a9/x"), Ok("/café/x".to_string()));
    assert_eq!(url_decode("%E2%82%AC"), Ok("€".to_string()));
    assert_eq!(url_decode("a%F0%9F%98%80b"), Ok("a😀b".to_string()));
}

#[test]
fn literal_non_ascii_is_copied() {
    assert_eq!(url_decode("/héllo"), Ok("/héllo".to_string()));
}

#[test]
fn trailing_incomplete_escape_fails() {
    assert_eq!(url_decode("/abc%4"), Err(DecodeError));
    assert_eq!(url_decode("/abc%"), Err(DecodeError));
    assert_eq!(url_decode("%"), Err(DecodeError));
}

#[test]
fn non_hex_escape_fails() {
    assert_eq!(url_decode("%zz"), Err(DecodeError));
    assert_eq!(url_decode("/a%4gb"), Err(DecodeError));
    assert_eq!(url_decode("%%41"), Err(DecodeError));
}

#[test]
fn invalid_utf8_escape_fails() {
    assert_eq!(url_decode("%FF"), Err(DecodeError));
    assert_eq!(url_decode("%C3x"), Err(DecodeError));
    assert_eq!(url_decode("%A9"), Err(DecodeError));
}
