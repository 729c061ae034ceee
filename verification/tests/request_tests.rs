use http_server::http::request::{parse_http_request, HttpMethod, HttpRequest};

fn parsed(bytes: &[u8]) -> Option<(HttpMethod, String)> {
    parse_http_request(bytes).map(|r| (r.method, r.path))
}

#[test]
fn get_request_line() {
    assert_eq!(
        parsed(b"GET /index.html HTTP/1.1\r\nHost: example.com\r\n\r\n"),
        Some((HttpMethod::GET, "/index.html".to_string()))
    );
}

#[test]
fn head_and_post_methods() {
    assert_eq!(parsed(b"HEAD / HTTP/1.1"), Some((HttpMethod::HEAD, "/".to_string())));
    assert_eq!(parsed(b"POST /form HTTP/1.0"), Some((HttpMethod::POST, "/form".to_string())));
}

#[test]
fn other_methods_are_unknown() {
    assert_eq!(parsed(b"DELETE /x HTTP/1.1"), Some((HttpMethod::UNKNOWN, "/x".to_string())));
    assert_eq!(parsed(b"get /x"), Some((HttpMethod::UNKNOWN, "/x".to_string())));
    assert_eq!(parsed(b"GETS /x"), Some((HttpMethod::UNKNOWN, "/x".to_string())));
}

#[test]
fn whitespace_around_words_is_skipped() {
    assert_eq!(parsed(b" \t GET \r\n  /p  "), Some((HttpMethod::GET, "/p".to_string())));
    assert_eq!(
        parsed("GET\u{3000}/wide".as_bytes()),
        Some((HttpMethod::GET, "/wide".to_string()))
    );
    assert_eq!(parsed("GET /caf\u{e9} x".as_bytes()), Some((HttpMethod::GET, "/caf\u{e9}".to_string())));
}

#[test]
fn fewer_than_two_words_give_none() {
    assert_eq!(parsed(b""), None);
    assert_eq!(parsed(b"   "), None);
    assert_eq!(parsed(b"GET"), None);
    assert_eq!(parsed(b"GET   "), None);
}

#[test]
fn invalid_utf8_gives_none() {
    assert_eq!(parsed(b"GET /\xff HTTP/1.1"), None);
    assert_eq!(parsed(&[0xc3, 0x28]), None);
}

#[test]
fn request_new_keeps_fields() {
    let r = HttpRequest::new(HttpMethod::POST, "/a".to_string());
    assert_eq!(r.method, HttpMethod::POST);
    assert_eq!(r.path, "/a");
}

#[test]
fn padding_and_trailing_text_leave_request_unchanged() {
    let base: &[u8] = b"GET /a";
    let expected = parsed(base);
    assert_eq!(expected, Some((HttpMethod::GET, "/a".to_string())));
    let padded = [&b" \t\r\n"[..], base, b" ", b"HTTP/1.1 trailing words"].concat();
    assert_eq!(parsed(&padded), expected);
    let bare = [base, b" ", b""].concat();
    assert_eq!(parsed(&bare), expected);
    let unicode_tail = [&b"\n\n"[..], b"POST /f", b" ", "caf\u{e9} x".as_bytes()].concat();
    assert_eq!(parsed(&unicode_tail), parsed(b"POST /f"));
}
