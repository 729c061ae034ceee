use http_server::text::{
    find_bytes, find_chars, is_whitespace, parse_u16_chars, skip_whitespace, skip_word,
    str_chars, string_of, trim_bounds,
};

fn chars(s: &str) -> Vec<char> {
    s.chars().collect()
}

#[test]
fn whitespace_set() {
    for c in [' ', '\t', '\n', '\r', '\u{0b}', '\u{0c}', '\u{85}', '\u{a0}', '\u{2003}', '\u{3000}'] {
        assert!(is_whitespace(c), "{:?}", c);
    }
    for c in ['a', '0', ':', '\u{200b}', '\u{feff}'] {
        assert!(!is_whitespace(c), "{:?}", c);
    }
}

#[test]
fn words_and_trimming() {
    let v = chars("  ab  cd ");
    assert_eq!(skip_whitespace(&v, 0), 2);
    assert_eq!(skip_word(&v, 2), 4);
    assert_eq!(skip_whitespace(&v, 4), 6);
    assert_eq!(trim_bounds(&v, 0, v.len()), (2, 8));
    assert_eq!(string_of(&v, 2, 8), "ab  cd");
    let blank = chars(" \t ");
    let (a, b) = trim_bounds(&blank, 0, 3);
    assert_eq!(a, b);
}

#[test]
fn searching() {
    let v = chars("a\r\nb\r\n");
    assert_eq!(find_chars(&v, 0, v.len(), &['\r', '\n']), Some(1));
    assert_eq!(find_chars(&v, 2, v.len(), &['\r', '\n']), Some(4));
    assert_eq!(find_chars(&v, 0, 2, &['\r', '\n']), None);
    assert_eq!(find_bytes(b"xx\r\n\r\n", 0, 6, b"\r\n\r\n"), Some(2));
    assert_eq!(find_bytes(b"\r\n\r", 0, 3, b"\r\n\r\n"), None);
}

#[test]
fn u16_numbers() {
    let p = |s: &str| {
        let v = chars(s);
        parse_u16_chars(&v, 0, v.len())
    };
    assert_eq!(p("0"), Some(0));
    assert_eq!(p("65535"), Some(65535));
    assert_eq!(p("65536"), None);
    assert_eq!(p("+7"), Some(7));
    assert_eq!(p("+"), None);
    assert_eq!(p("++7"), None);
    assert_eq!(p("-7"), None);
    assert_eq!(p(""), None);
    assert_eq!(p("00012"), Some(12));
    assert_eq!(p("12a"), None);
    assert_eq!(p("99999999999999999999"), None);
}

#[test]
fn str_to_chars() {
    assert_eq!(str_chars("h\u{e9}\u{1f600}"), vec!['h', '\u{e9}', '\u{1f600}']);
}
