//! The request line of an HTTP request: its method and its path.

use vstd::prelude::*;
use vstd::utf8::*;

use crate::http::roundtrip::lemma_encode_concat;
use crate::text::{
    is_ws, lemma_words_append, lemma_words_ws_prefix, chars_eq, lead_ws, lemma_lead_ws_bound, skip_whitespace, skip_word, str_chars, str_from_utf8,
    string_of, word_len, words,
};

verus! {

/// The request methods that the server tells apart.
#[allow(clippy::upper_case_acronyms)]
#[derive(Debug, Clone, PartialEq, Eq, Structural, Hash)]
pub enum HttpMethod {
    GET,
    HEAD,
    POST,
    UNKNOWN,
}

/// A request method and the path it asks for.
#[derive(Debug, Clone)]
pub struct HttpRequest {
    pub method: HttpMethod,
    pub path: String,
}

impl HttpRequest {
    pub fn new(method: HttpMethod, path: String) -> (r: Self)
        ensures
            r.method == method,
            r.path == path,
    {
        Self { method, path }
    }
}

/// The method that a request-line word names; any word other than
/// `GET`, `HEAD` and `POST` (case matters) is `UNKNOWN`.
pub open spec fn method_of(w: Seq<char>) -> HttpMethod {
    if w == seq!['G', 'E', 'T'] {
        HttpMethod::GET
    } else if w == seq!['H', 'E', 'A', 'D'] {
        HttpMethod::HEAD
    } else if w == seq!['P', 'O', 'S', 'T'] {
        HttpMethod::POST
    } else {
        HttpMethod::UNKNOWN
    }
}

/// What a request's bytes say: `None` unless they are UTF-8 text with at
/// least two whitespace-separated words; else the method named by the
/// first word and the second word as the path. Later words are ignored.
pub open spec fn request_of(bytes: Seq<u8>) -> Option<(HttpMethod, Seq<char>)> {
    if !valid_utf8(bytes) {
        None
    } else {
        let w = words(decode_utf8(bytes));
        if w.len() < 2 {
            None
        } else {
            Some((method_of(w[0]), w[1]))
        }
    }
}

/// The method of a parsed request is decided by its first word alone:
/// `GET`, `HEAD` and `POST` (case matters) name their methods, and every
/// other word, `PUT` and `get` among them, gives `UNKNOWN`. The path is
/// the second word.
pub proof fn lemma_request_method(bytes: Seq<u8>)
    ensures
        request_of(bytes) matches Some((m, p)) ==> {
            let w = words(decode_utf8(bytes));
            &&& (m == HttpMethod::GET <==> w[0] == seq!['G', 'E', 'T'])
            &&& (m == HttpMethod::HEAD <==> w[0] == seq!['H', 'E', 'A', 'D'])
            &&& (m == HttpMethod::POST <==> w[0] == seq!['P', 'O', 'S', 'T'])
            &&& (m == HttpMethod::UNKNOWN <==> (w[0] != seq!['G', 'E', 'T'] && w[0] != seq![
                'H',
                'E',
                'A',
                'D',
            ] && w[0] != seq!['P', 'O', 'S', 'T']))
            &&& p == w[1]
        },
{
}

fn method_from(v: &[char], lo: usize, hi: usize) -> (m: HttpMethod)
    requires
        lo <= hi <= v@.len(),
    ensures
        m == method_of(v@.subrange(lo as int, hi as int)),
{
    let get: [char; 3] = ['G', 'E', 'T'];
    let head: [char; 4] = ['H', 'E', 'A', 'D'];
    let post: [char; 4] = ['P', 'O', 'S', 'T'];
    assert(get@ =~= seq!['G', 'E', 'T']);
    assert(head@ =~= seq!['H', 'E', 'A', 'D']);
    assert(post@ =~= seq!['P', 'O', 'S', 'T']);
    if chars_eq(v, lo, hi, &get) {
        HttpMethod::GET
    } else if chars_eq(v, lo, hi, &head) {
        HttpMethod::HEAD
    } else if chars_eq(v, lo, hi, &post) {
        HttpMethod::POST
    } else {
        HttpMethod::UNKNOWN
    }
}

/// Reads the method and path from the start of a request.
pub fn parse_http_request(request: &[u8]) -> (r: Option<HttpRequest>)
    ensures
        match request_of(request@) {
            None => r is None,
            Some((m, p)) => r matches Some(req) && req.method == m && req.path@ == p,
        },
{
    let s = match str_from_utf8(request) {
        Ok(s) => s,
        Err(_) => return None,
    };
    let v = str_chars(s);
    let ghost cs = v@;
    assert(cs == decode_utf8(request@));
    let a0 = skip_whitespace(v.as_slice(), 0);
    proof {
        assert(cs.skip(0) =~= cs);
        lemma_lead_ws_bound(cs);
    }
    if a0 == v.len() {
        assert(words(cs) =~= seq![]);
        return None;
    }
    let b0 = skip_word(v.as_slice(), a0);
    proof {
        let t0 = cs.skip(a0 as int);
        assert(t0[0] == cs[a0 as int]);
        assert(word_len(t0) > 0);
        assert(t0.skip(word_len(t0) as int) =~= cs.skip(b0 as int));
        assert(t0.take(word_len(t0) as int) =~= cs.subrange(a0 as int, b0 as int));
        assert(words(cs) == seq![cs.subrange(a0 as int, b0 as int)] + words(cs.skip(b0 as int)));
        lemma_lead_ws_bound(cs.skip(b0 as int));
    }
    let a1 = skip_whitespace(v.as_slice(), b0);
    if a1 == v.len() {
        assert(words(cs.skip(b0 as int)) =~= seq![]);
        return None;
    }
    let b1 = skip_word(v.as_slice(), a1);
    proof {
        let r0 = cs.skip(b0 as int);
        let t1 = r0.skip(lead_ws(r0) as int);
        assert(t1 =~= cs.skip(a1 as int));
        assert(t1[0] == cs[a1 as int]);
        assert(word_len(t1) > 0);
        assert(t1.take(word_len(t1) as int) =~= cs.subrange(a1 as int, b1 as int));
        assert(words(r0)[0] == cs.subrange(a1 as int, b1 as int));
        assert(words(cs)[1] == words(r0)[0]);
    }
    let method = method_from(v.as_slice(), a0, b0);
    let path = string_of(v.as_slice(), a1, b1);
    Some(HttpRequest::new(method, path))
}

/// An ASCII byte that encodes a whitespace character: tab, line feed,
/// vertical tab, form feed, carriage return or space.
pub open spec fn is_ascii_ws_byte(b: u8) -> bool {
    9 <= b <= 13 || b == 32
}

proof fn lemma_ascii_ws_bytes(ws: Seq<u8>)
    requires
        forall|i: int| 0 <= i < ws.len() ==> is_ascii_ws_byte(#[trigger] ws[i]),
    ensures
        valid_utf8(ws),
        forall|i: int| 0 <= i < decode_utf8(ws).len() ==> is_ws(#[trigger] decode_utf8(ws)[i]),
{
    let w = ws.map_values(|b: u8| b as char);
    assert(is_ascii_chars(w));
    is_ascii_chars_encode_utf8(w);
    assert(encode_utf8(w) =~= ws);
    encode_utf8_valid_utf8(w);
    encode_utf8_decode_utf8(w);
    assert forall|i: int| 0 <= i < w.len() implies is_ws(#[trigger] w[i]) by {
        assert(w[i] == ws[i] as char);
    }
}

/// Only the first two words count: whitespace before a request, and
/// anything after a space that follows it, leave its method and path as
/// they were.
pub proof fn lemma_request_ignores_padding(ws: Seq<u8>, req: Seq<u8>, extra: Seq<u8>)
    requires
        request_of(req) is Some,
        valid_utf8(extra),
        forall|i: int| 0 <= i < ws.len() ==> is_ascii_ws_byte(#[trigger] ws[i]),
    ensures
        request_of(ws + req + seq![32u8] + extra) == request_of(req),
{
    lemma_ascii_ws_bytes(ws);
    let w = decode_utf8(ws);
    let r = decode_utf8(req);
    let x = decode_utf8(extra);
    let sp = seq![' '];
    decode_utf8_encode_utf8(ws);
    decode_utf8_encode_utf8(req);
    decode_utf8_encode_utf8(extra);
    assert(is_ascii_chars(sp));
    is_ascii_chars_encode_utf8(sp);
    assert(encode_utf8(sp) =~= seq![32u8]);
    let all = w + r + sp + x;
    lemma_encode_concat(w, r);
    lemma_encode_concat(w + r, sp);
    lemma_encode_concat(w + r + sp, x);
    let b = ws + req + seq![32u8] + extra;
    assert(encode_utf8(all) =~= b);
    encode_utf8_valid_utf8(all);
    encode_utf8_decode_utf8(all);
    assert(decode_utf8(b) == all);
    assert(all =~= w + (r + (sp + x)));
    lemma_words_ws_prefix(w, r + (sp + x));
    assert((sp + x)[0] == ' ');
    lemma_words_append(r, sp + x);
    let wr = words(r);
    assert(words(all) == wr + words(sp + x));
    assert(words(all)[0] == wr[0] && words(all)[1] == wr[1]);
}

} // verus!
