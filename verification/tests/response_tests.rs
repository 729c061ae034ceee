use http_server::error::ParseError;
use http_server::http::response::{parse_status_line, Response, StatusCode};

fn header(name: &str, value: &str) -> (String, String) {
    (name.to_string(), value.to_string())
}

#[test]
fn status_code_range() {
    assert!(StatusCode::from_u16(0).is_err());
    assert!(StatusCode::from_u16(99).is_err());
    assert_eq!(StatusCode::from_u16(100).ok().map(|c| c.as_u16()), Some(100));
    assert_eq!(StatusCode::from_u16(999).ok().map(|c| c.as_u16()), Some(999));
    assert!(StatusCode::from_u16(1000).is_err());
    assert!(StatusCode::from_u16(u16::MAX).is_err());
}

#[test]
fn named_status_codes() {
    assert_eq!(StatusCode::OK().as_u16(), 200);
    assert_eq!(StatusCode::BAD_REQUEST().as_u16(), 400);
    assert_eq!(StatusCode::NOT_FOUND().as_u16(), 404);
    assert_eq!(StatusCode::default().as_u16(), 200);
    assert!(StatusCode::OK() == StatusCode::from_u16(200).ok().unwrap());
    assert!(StatusCode::OK() < StatusCode::NOT_FOUND());
}

#[test]
fn reason_phrases() {
    assert_eq!(StatusCode::OK().canonical_reason(), Some("OK"));
    assert_eq!(StatusCode::BAD_REQUEST().canonical_reason(), Some("Bad Request"));
    assert_eq!(StatusCode::NOT_FOUND().canonical_reason(), Some("Not Found"));
    assert_eq!(StatusCode::from_u16(201).ok().unwrap().canonical_reason(), None);
}

#[test]
fn status_display() {
    assert_eq!(StatusCode::OK().to_string(), "200 OK");
    assert_eq!(StatusCode::NOT_FOUND().to_string(), "404 Not Found");
    assert_eq!(StatusCode::from_u16(503).ok().unwrap().to_string(), "503");
}

#[test]
fn new_response() {
    let r = Response::new(vec![1u8, 2, 3]);
    assert_eq!(r.status.as_u16(), 200);
    assert!(r.headers.is_empty());
    assert_eq!(r.body, vec![1, 2, 3]);
}

#[test]
fn mutable_access() {
    let mut r = Response::new(String::from("a"));
    r.headers_mut().push(header("X", "1"));
    r.body_mut().push('b');
    assert_eq!(r.headers, vec![header("X", "1")]);
    assert_eq!(r.body, "ab");
    assert_eq!(r.status.as_u16(), 200);
}

#[test]
fn encode_exact_bytes() {
    let mut r = Response::new(b"hi".to_vec());
    r.headers_mut().push(header("Content-Type", "text/plain"));
    assert_eq!(
        r.encode(),
        b"HTTP/1.1 200 OK\r\nContent-Type: text/plain\r\nContent-Length: 2\r\n\r\nhi".to_vec()
    );
}

#[test]
fn encode_without_reason_and_empty_body() {
    let mut r = Response::new(Vec::new());
    r.status = StatusCode::from_u16(204).ok().unwrap();
    assert_eq!(r.encode(), b"HTTP/1.1 204\r\nContent-Length: 0\r\n\r\n".to_vec());
}

#[test]
fn encode_counts_body_bytes() {
    let mut r = Response::new(vec![b'x'; 1234]);
    r.status = StatusCode::NOT_FOUND();
    let out = r.encode();
    let head = b"HTTP/1.1 404 Not Found\r\nContent-Length: 1234\r\n\r\n";
    assert_eq!(&out[..head.len()], &head[..]);
    assert_eq!(out.len(), head.len() + 1234);
}

#[test]
fn encode_then_parse() {
    let mut r = Response::new(b"body\r\n\r\nmore".to_vec());
    r.status = StatusCode::BAD_REQUEST();
    r.headers_mut().push(header("Server", "echo"));
    r.headers_mut().push(header("X-Note", "caf\u{e9}: ok"));
    let p = Response::parse(&r.encode()).ok().unwrap();
    assert_eq!(p.status.as_u16(), 400);
    assert_eq!(
        p.headers,
        vec![header("Server", "echo"), header("X-Note", "caf\u{e9}: ok"), header("Content-Length", "12")]
    );
    assert_eq!(p.body, b"body\r\n\r\nmore".to_vec());
}

#[test]
fn parse_trims_headers_and_keeps_body() {
    let p = Response::parse(b"HTTP/1.0 404 Whatever\r\n  A :  b c \r\nEmpty:\r\n\r\nrest\r\n\r\n").ok().unwrap();
    assert_eq!(p.status.as_u16(), 404);
    assert_eq!(p.headers, vec![header("A", "b c"), header("Empty", "")]);
    assert_eq!(p.body, b"rest\r\n\r\n".to_vec());
}

#[test]
fn parse_ignores_content_length() {
    let p = Response::parse(b"HTTP/1.1 200 OK\r\nContent-Length: 99\r\n\r\nabc").ok().unwrap();
    assert_eq!(p.body, b"abc".to_vec());
}

#[test]
fn parse_incomplete_head() {
    assert!(matches!(Response::parse(b"HTTP/1.1 200 OK\r\n"), Err(ParseError::IncompleteHead)));
    assert!(matches!(Response::parse(b""), Err(ParseError::IncompleteHead)));
    assert!(matches!(Response::parse(b"\r\n\r"), Err(ParseError::IncompleteHead)));
}

#[test]
fn parse_head_not_utf8() {
    assert!(matches!(
        Response::parse(b"HTTP/1.1 200 \xff\r\n\r\nbody"),
        Err(ParseError::NotUtf8(_))
    ));
}

#[test]
fn parse_body_need_not_be_utf8() {
    let p = Response::parse(b"HTTP/1.1 200 OK\r\n\r\n\xff\xfe").ok().unwrap();
    assert_eq!(p.body, vec![0xff, 0xfe]);
}

#[test]
fn parse_bad_status_lines() {
    match Response::parse(b"FTP/1.1 200 OK\r\n\r\n") {
        Err(ParseError::StatusLine(l)) => assert_eq!(l, "FTP/1.1 200 OK"),
        _ => panic!("expected a status line error"),
    }
    match Response::parse(b"\r\n\r\n") {
        Err(ParseError::StatusLine(l)) => assert_eq!(l, ""),
        _ => panic!("expected a status line error"),
    }
    match Response::parse(b"HTTP/1.1\r\n\r\n") {
        Err(ParseError::StatusLine(l)) => assert_eq!(l, "HTTP/1.1"),
        _ => panic!("expected a status line error"),
    }
    match Response::parse(b"HTTP/1.1 abc\r\n\r\n") {
        Err(ParseError::StatusLine(l)) => assert_eq!(l, "HTTP/1.1 abc"),
        _ => panic!("expected a status line error"),
    }
    match Response::parse(b"HTTP/1.1  200 OK\r\n\r\n") {
        Err(ParseError::StatusLine(l)) => assert_eq!(l, "HTTP/1.1  200 OK"),
        _ => panic!("expected a status line error"),
    }
}

#[test]
fn parse_out_of_range_codes() {
    assert!(matches!(Response::parse(b"HTTP/1.1 99 Low\r\n\r\n"), Err(ParseError::StatusCode(99))));
    assert!(matches!(Response::parse(b"HTTP/1.1 1000\r\n\r\n"), Err(ParseError::StatusCode(1000))));
    assert!(matches!(Response::parse(b"HTTP/1.1 70000\r\n\r\n"), Err(ParseError::StatusLine(_))));
}

#[test]
fn parse_header_without_colon() {
    match Response::parse(b"HTTP/1.1 200 OK\r\nA: 1\r\nno colon here\r\n\r\n") {
        Err(ParseError::HeaderLine(l)) => assert_eq!(l, "no colon here"),
        _ => panic!("expected a header line error"),
    }
}

#[test]
fn status_line_forms() {
    assert_eq!(parse_status_line("HTTP/1.1 404 Not Found").ok().map(|c| c.as_u16()), Some(404));
    assert_eq!(parse_status_line("HTTP/2 200").ok().map(|c| c.as_u16()), Some(200));
    assert_eq!(parse_status_line("HTTP/1.1 +301 Moved").ok().map(|c| c.as_u16()), Some(301));
    assert_eq!(parse_status_line("HTTP/1.1 0200 OK").ok().map(|c| c.as_u16()), Some(200));
    assert!(matches!(parse_status_line("HTTP/1.1 + OK"), Err(ParseError::StatusLine(_))));
    assert!(matches!(parse_status_line("HTTP/1.1 -200"), Err(ParseError::StatusLine(_))));
    assert!(matches!(parse_status_line("http/1.1 200"), Err(ParseError::StatusLine(_))));
    assert!(matches!(parse_status_line("HTTP/1.1 065"), Err(ParseError::StatusCode(65))));
}

#[test]
fn status_debug_form() {
    assert_eq!(StatusCode::OK().debug_string(), "StatusCode(200 OK)");
    assert_eq!(StatusCode::from_u16(302).ok().unwrap().debug_string(), "StatusCode(302)");
}

#[test]
fn encode_text_and_slice_bodies() {
    let mut r = Response::new(String::from("h\u{e9}"));
    r.headers_mut().push(header("A", "b"));
    assert_eq!(
        r.encode(),
        "HTTP/1.1 200 OK\r\nA: b\r\nContent-Length: 3\r\n\r\nh\u{e9}".as_bytes().to_vec()
    );
    let data: &[u8] = b"xyz";
    let s = Response::new(data);
    assert_eq!(s.encode(), b"HTTP/1.1 200 OK\r\nContent-Length: 3\r\n\r\nxyz".to_vec());
}
