//! Status codes and HTTP responses: building a response, encoding it for
//! the wire, and parsing one back from bytes.

use vstd::prelude::*;

use vstd::utf8::*;

use crate::error::{ParseError, ParseFailure};
use crate::text::{
    chars_eq, decimal, find, lemma_find, find_bytes, occurs_at, find_chars, lemma_split_nonempty, parse_u16,
    parse_u16_chars, push_char, push_decimal, split, starts_with, str_chars, str_from_utf8,
    string_of, trim, trim_bounds,
};

verus! {

/// An HTTP status code: a number from 100 to 999.
#[derive(Clone, Copy, PartialEq, Eq, Structural, PartialOrd, Ord, Hash)]
pub struct StatusCode(u16);

/// The error returned for a number that is no status code.
pub struct InvalidStatusCode {
    _priv: (),
}

impl View for StatusCode {
    type V = u16;

    closed spec fn view(&self) -> u16 {
        self.0
    }
}

/// The standard reason phrase of the status codes that have one here.
pub open spec fn reason_phrase(code: u16) -> Option<Seq<char>> {
    if code == 200 {
        Some(seq!['O', 'K'])
    } else if code == 400 {
        Some(seq!['B', 'a', 'd', ' ', 'R', 'e', 'q', 'u', 'e', 's', 't'])
    } else if code == 404 {
        Some(seq!['N', 'o', 't', ' ', 'F', 'o', 'u', 'n', 'd'])
    } else {
        None
    }
}

/// How a status code is written: its number, then a space and its reason
/// phrase where it has one (`200 OK`, `600`).
pub open spec fn status_text(code: u16) -> Seq<char> {
    match reason_phrase(code) {
        Some(p) => decimal(code as nat) + seq![' '] + p,
        None => decimal(code as nat),
    }
}

/// Exactly three codes have a reason phrase: 200 `OK`, 400 `Bad Request`
/// and 404 `Not Found`. Every other code is written as its number alone,
/// and the three are written as the number, a space and the phrase.
pub proof fn lemma_reason_phrases(code: u16)
    ensures
        reason_phrase(code) is Some <==> (code == 200 || code == 400 || code == 404),
        code == 200 ==> reason_phrase(code) == Some(seq!['O', 'K']),
        code == 400 ==> reason_phrase(code) == Some(
            seq!['B', 'a', 'd', ' ', 'R', 'e', 'q', 'u', 'e', 's', 't'],
        ),
        code == 404 ==> reason_phrase(code) == Some(seq!['N', 'o', 't', ' ', 'F', 'o', 'u', 'n', 'd']),
        code != 200 && code != 400 && code != 404 ==> status_text(code) == decimal(code as nat),
        code == 200 ==> status_text(code) == seq!['2', '0', '0', ' ', 'O', 'K'],
        code == 400 ==> status_text(code) == seq![
            '4', '0', '0', ' ', 'B', 'a', 'd', ' ', 'R', 'e', 'q', 'u', 'e', 's', 't',
        ],
        code == 404 ==> status_text(code) == seq![
            '4', '0', '4', ' ', 'N', 'o', 't', ' ', 'F', 'o', 'u', 'n', 'd',
        ],
{
    reveal_with_fuel(decimal, 4);
}

impl StatusCode {
    #[verifier::type_invariant]
    spec fn in_range(self) -> bool {
        100 <= self.0 <= 999
    }

    /// 200 OK
    #[allow(non_snake_case)]
    pub fn OK() -> (r: StatusCode)
        ensures
            r@ == 200,
    {
        StatusCode(200)
    }

    /// 400 Bad Request
    #[allow(non_snake_case)]
    pub fn BAD_REQUEST() -> (r: StatusCode)
        ensures
            r@ == 400,
    {
        StatusCode(400)
    }

    /// 404 Not Found
    #[allow(non_snake_case)]
    pub fn NOT_FOUND() -> (r: StatusCode)
        ensures
            r@ == 404,
    {
        StatusCode(404)
    }

    pub fn from_u16(src: u16) -> (r: Result<Self, InvalidStatusCode>)
        ensures
            r is Ok <==> 100 <= src <= 999,
            r matches Ok(c) ==> c@ == src,
    {
        if src < 100 || src > 999 {
            return Err(InvalidStatusCode { _priv: () });
        }
        Ok(Self(src))
    }

    pub fn as_u16(&self) -> (r: u16)
        ensures
            r == self@,
            100 <= r <= 999,
    {
        proof {
            use_type_invariant(self);
        }
        self.0
    }

    /// Returns the standard reason phrase, e.g. `"OK"` for 200.
    pub fn canonical_reason(&self) -> (r: Option<&'static str>)
        ensures
            match reason_phrase(self@) {
                None => r is None,
                Some(p) => r matches Some(s) && s@ == p,
            },
            r is Some <==> (self@ == 200 || self@ == 400 || self@ == 404),
    {
        match self.0 {
            200 => {
                proof {
                    reveal_strlit("OK");
                }
                assert("OK"@ =~= seq!['O', 'K']);
                Some("OK")
            },
            400 => {
                proof {
                    reveal_strlit("Bad Request");
                }
                assert("Bad Request"@ =~= seq!['B', 'a', 'd', ' ', 'R', 'e', 'q', 'u', 'e', 's', 't']);
                Some("Bad Request")
            },
            404 => {
                proof {
                    reveal_strlit("Not Found");
                }
                assert("Not Found"@ =~= seq!['N', 'o', 't', ' ', 'F', 'o', 'u', 'n', 'd']);
                Some("Not Found")
            },
            _ => None,
        }
    }

    /// The status code as it is displayed: `200 OK`, or just the number
    /// when it has no reason phrase here.
    pub fn to_string(&self) -> (s: String)
        ensures
            s@ == status_text(self@),
    {
        let mut s = String::new();
        push_decimal(&mut s, self.as_u16() as usize);
        match self.canonical_reason() {
            Some(reason) => {
                push_char(&mut s, ' ');
                s.append(reason);
            },
            None => {},
        }
        assert(s@ =~= status_text(self@));
        s
    }
}

impl StatusCode {
    /// The status code as it is shown for debugging: `StatusCode(200 OK)`.
    pub fn debug_string(&self) -> (s: String)
        ensures
            s@ == seq!['S', 't', 'a', 't', 'u', 's', 'C', 'o', 'd', 'e', '('] + status_text(self@)
                + seq![')'],
    {
        let mut s = String::new();
        s.append("StatusCode(");
        proof {
            reveal_strlit("StatusCode(");
        }
        let text = self.to_string();
        s.append(text.as_str());
        push_char(&mut s, ')');
        assert(s@ =~= seq!['S', 't', 'a', 't', 'u', 's', 'C', 'o', 'd', 'e', '('] + status_text(self@)
            + seq![')']);
        s
    }
}

impl Default for StatusCode {
    fn default() -> (r: StatusCode)
        ensures
            r@ == 200,
    {
        StatusCode::OK()
    }
}

// ---------------------------------------------------------------------
// Responses
// ---------------------------------------------------------------------

/// An HTTP response: a status, headers in order, and a body.
#[derive(Clone)]
pub struct Response<T> {
    pub status: StatusCode,
    pub headers: Vec<(String, String)>,
    pub body: T,
}

/// A response with its body as bytes, as plain values.
#[verifier::ext_equal]
pub struct ResponseParts {
    pub status: u16,
    pub headers: Seq<(Seq<char>, Seq<char>)>,
    pub body: Seq<u8>,
}

/// The characters of each header's name and value.
pub open spec fn header_pairs(h: Seq<(String, String)>) -> Seq<(Seq<char>, Seq<char>)> {
    h.map_values(|p: (String, String)| (p.0@, p.1@))
}

impl<T> Response<T> {
    /// A response with status 200, no headers, and the given body.
    pub fn new(body: T) -> (r: Self)
        ensures
            r.status@ == 200,
            r.headers@.len() == 0,
            r.body == body,
    {
        Self { status: StatusCode::default(), headers: Vec::new(), body }
    }

    pub fn headers_mut(&mut self) -> (h: &mut Vec<(String, String)>)
        ensures
            *h == old(self).headers,
            final(self).headers == *final(h),
            final(self).status == old(self).status,
            final(self).body == old(self).body,
    {
        &mut self.headers
    }

    pub fn body_mut(&mut self) -> (b: &mut T)
        ensures
            *b == old(self).body,
            final(self).body == *final(b),
            final(self).status == old(self).status,
            final(self).headers == old(self).headers,
    {
        &mut self.body
    }
}

impl Response<Vec<u8>> {
    pub open spec fn parts(&self) -> ResponseParts {
        ResponseParts {
            status: self.status@,
            headers: header_pairs(self.headers@),
            body: self.body@,
        }
    }
}

/// `\r\n`
pub open spec fn crlf() -> Seq<char> {
    seq!['\r', '\n']
}

/// `HTTP/1.1 `, which starts every encoded response.
pub open spec fn version_prefix() -> Seq<char> {
    seq!['H', 'T', 'T', 'P', '/', '1', '.', '1', ' ']
}

/// `HTTP/`, which a parsed status line must start with.
pub open spec fn http_prefix() -> Seq<char> {
    seq!['H', 'T', 'T', 'P', '/']
}

/// `Content-Length`
pub open spec fn content_length_name() -> Seq<char> {
    seq!['C', 'o', 'n', 't', 'e', 'n', 't', '-', 'L', 'e', 'n', 'g', 't', 'h']
}

/// One header as written on the wire: `name: value\r\n`.
pub open spec fn header_line(h: (Seq<char>, Seq<char>)) -> Seq<char> {
    h.0 + seq![':', ' '] + h.1 + crlf()
}

/// The header lines of `hs`, in order.
pub open spec fn header_block(hs: Seq<(Seq<char>, Seq<char>)>) -> Seq<char>
    decreases hs.len(),
{
    if hs.len() == 0 {
        seq![]
    } else {
        header_block(hs.drop_last()) + header_line(hs.last())
    }
}

/// The head of an encoded response: the status line, the headers, then a
/// `Content-Length` header for a body of `body_len` bytes and a blank line.
pub open spec fn head_text(code: u16, hs: Seq<(Seq<char>, Seq<char>)>, body_len: nat) -> Seq<
    char,
> {
    version_prefix() + status_text(code) + crlf() + header_block(
        hs.push((content_length_name(), decimal(body_len))),
    ) + crlf()
}

/// How an encoded head is laid out: `HTTP/1.1 `, the status as it is
/// displayed, a line break, the headers in order, then
/// `Content-Length: <body length>` and a blank line.
pub proof fn lemma_head_layout(code: u16, hs: Seq<(Seq<char>, Seq<char>)>, body_len: nat)
    ensures
        head_text(code, hs, body_len) == seq!['H', 'T', 'T', 'P', '/', '1', '.', '1', ' ']
            + status_text(code) + seq!['\r', '\n'] + header_block(hs) + seq![
            'C', 'o', 'n', 't', 'e', 'n', 't', '-', 'L', 'e', 'n', 'g', 't', 'h', ':', ' ',
        ] + decimal(body_len) + seq!['\r', '\n', '\r', '\n'],
{
    let cl = (content_length_name(), decimal(body_len));
    let hs2 = hs.push(cl);
    assert(hs2.drop_last() =~= hs);
    assert(hs2.last() == cl);
    assert(head_text(code, hs, body_len) =~= seq!['H', 'T', 'T', 'P', '/', '1', '.', '1', ' ']
        + status_text(code) + seq!['\r', '\n'] + header_block(hs) + seq![
        'C', 'o', 'n', 't', 'e', 'n', 't', '-', 'L', 'e', 'n', 'g', 't', 'h', ':', ' ',
    ] + decimal(body_len) + seq!['\r', '\n', '\r', '\n']);
}

/// Headers are written one line each, in order: a single header is
/// `name: value` and a line break, and the lines of two lists of headers
/// are the lines of the first, then those of the second.
pub proof fn lemma_header_block(a: Seq<(Seq<char>, Seq<char>)>, b: Seq<(Seq<char>, Seq<char>)>)
    ensures
        header_block(Seq::<(Seq<char>, Seq<char>)>::empty()) == Seq::<char>::empty(),
        forall|h: (Seq<char>, Seq<char>)| #[trigger] header_block(seq![h]) == h.0 + seq![':', ' ']
            + h.1 + seq!['\r', '\n'],
        header_block(a + b) == header_block(a) + header_block(b),
    decreases b.len(),
{
    assert forall|h: (Seq<char>, Seq<char>)| #[trigger] header_block(seq![h]) == h.0 + seq![':', ' ']
        + h.1 + seq!['\r', '\n'] by {
        let e = Seq::<(Seq<char>, Seq<char>)>::empty();
        assert(seq![h].drop_last() =~= e);
        assert(seq![h].last() == h);
        assert(header_block(e) == Seq::<char>::empty());
        assert(header_block(seq![h]) == header_block(e) + header_line(h));
        assert(header_block(seq![h]) =~= h.0 + seq![':', ' '] + h.1 + seq!['\r', '\n']);
    }
    if b.len() == 0 {
        assert(a + b =~= a);
        assert(header_block(a) + header_block(b) =~= header_block(a));
    } else {
        lemma_header_block(a, b.drop_last());
        assert((a + b).drop_last() =~= a + b.drop_last());
        assert((a + b).last() == b.last());
        assert(header_block(a + b) =~= header_block(a) + header_block(b));
    }
}

/// The bytes of an encoded response: the UTF-8 head, then the body.
pub open spec fn response_bytes(r: ResponseParts) -> Seq<u8> {
    encode_utf8(head_text(r.status, r.headers, r.body.len())) + r.body
}

/// `\r\n\r\n` as bytes: the blank line that ends a head.
pub open spec fn head_end() -> Seq<u8> {
    seq![13u8, 10u8, 13u8, 10u8]
}

/// A header line cut at its first `:`, both sides trimmed.
pub open spec fn header_of(line: Seq<char>) -> Option<(Seq<char>, Seq<char>)> {
    match find(line, seq![':']) {
        None => None,
        Some(i) => Some((trim(line.take(i)), trim(line.skip(i + 1)))),
    }
}

/// The headers read from `lines`, or the first line without a `:`.
pub open spec fn headers_of(lines: Seq<Seq<char>>) -> Result<
    Seq<(Seq<char>, Seq<char>)>,
    ParseFailure,
>
    decreases lines.len(),
{
    if lines.len() == 0 {
        Ok(seq![])
    } else {
        match header_of(lines[0]) {
            None => Err(ParseFailure::HeaderLine(lines[0])),
            Some(h) => match headers_of(lines.drop_first()) {
                Ok(hs) => Ok(seq![h] + hs),
                Err(e) => Err(e),
            },
        }
    }
}

/// A header line is cut at its first `:`: the name is what comes before it
/// and the value what comes after it, both trimmed, whatever follows the
/// `:`. A line without a `:` is no header.
pub proof fn lemma_header_of_line(line: Seq<char>)
    ensures
        header_of(line) is Some <==> line.contains(':'),
        forall|i: int|
            0 <= i < line.len() && #[trigger] line[i] == ':' && !line.take(i).contains(':')
                ==> header_of(line) == Some((trim(line.take(i)), trim(line.skip(i + 1)))),
{
    let p = seq![':'];
    lemma_find(line, p);
    lemma_occurs_single(line, ':');
    match find(line, p) {
        None => {
            if line.contains(':') {
                let j = choose|j: int| 0 <= j < line.len() && line[j] == ':';
                assert(occurs_at(line, p, j));
            }
        },
        Some(k) => {
            assert(occurs_at(line, p, k));
            assert forall|i: int|
                0 <= i < line.len() && #[trigger] line[i] == ':' && !line.take(i).contains(':')
                implies k == i by {
                assert(occurs_at(line, p, i));
                if k < i {
                    assert(line.take(i)[k] == ':');
                }
            }
        },
    }
}

/// A line written as `name:value`, with no `:` in the name, is read as the
/// header `(trim(name), trim(value))`, with or without a space after the `:`.
pub proof fn lemma_header_name_value(name: Seq<char>, value: Seq<char>)
    requires
        !name.contains(':'),
    ensures
        header_of(name + seq![':'] + value) == Some((trim(name), trim(value))),
{
    let line = name + seq![':'] + value;
    let i = name.len() as int;
    assert(line[i] == ':');
    assert(line.take(i) =~= name);
    assert(line.skip(i + 1) =~= value);
    lemma_header_of_line(line);
}

/// The header lines of a head are read in order, one header per line, each
/// cut at the line's first `:`; the first line without a `:` is the error.
pub proof fn lemma_headers_of(lines: Seq<Seq<char>>)
    ensures
        headers_of(lines) is Ok <==> forall|k: int| 0 <= k < lines.len() ==> #[trigger] lines[k].contains(':'),
        headers_of(lines) matches Ok(hs) ==> hs.len() == lines.len() && forall|k: int, i: int|
            0 <= k < lines.len() && 0 <= i < lines[k].len() && #[trigger] lines[k][i] == ':'
                && !lines[k].take(i).contains(':')
                ==> #[trigger] hs[k] == (trim(lines[k].take(i)), trim(lines[k].skip(i + 1))),
        headers_of(lines) matches Err(e) ==> exists|k: int|
            0 <= k < lines.len() && !#[trigger] lines[k].contains(':')
                && e == ParseFailure::HeaderLine(lines[k])
                && forall|j: int| 0 <= j < k ==> lines[j].contains(':'),
    decreases lines.len(),
{
    if lines.len() > 0 {
        let rest = lines.drop_first();
        lemma_header_of_line(lines[0]);
        lemma_headers_of(rest);
        assert forall|k: int| 1 <= k < lines.len() implies lines[k] == rest[k - 1] by {}
        match headers_of(lines) {
            Ok(hs) => {
                let rhs = headers_of(rest)->Ok_0;
                assert(hs == seq![header_of(lines[0])->Some_0] + rhs);
                assert forall|k: int| 0 <= k < lines.len() implies #[trigger] lines[k].contains(':') by {
                    if k > 0 {
                        assert(rest[k - 1].contains(':'));
                    }
                }
                assert forall|k: int, i: int|
                    0 <= k < lines.len() && 0 <= i < lines[k].len() && #[trigger] lines[k][i] == ':'
                        && !lines[k].take(i).contains(':')
                    implies #[trigger] hs[k] == (trim(lines[k].take(i)), trim(lines[k].skip(i + 1))) by {
                    if k > 0 {
                        assert(rest[k - 1][i] == ':');
                        assert(hs[k] == rhs[k - 1]);
                    }
                }
            },
            Err(e) => {
                if header_of(lines[0]) is None {
                    assert(!lines[0].contains(':'));
                } else {
                    let k = choose|k: int|
                        0 <= k < rest.len() && !#[trigger] rest[k].contains(':')
                            && e == ParseFailure::HeaderLine(rest[k])
                            && forall|j: int| 0 <= j < k ==> rest[j].contains(':');
                    assert(lines[k + 1] == rest[k]);
                    assert forall|j: int| 0 <= j < k + 1 implies lines[j].contains(':') by {
                        if j > 0 {
                            assert(lines[j] == rest[j - 1]);
                        }
                    }
                    assert(!lines[k + 1].contains(':'));
                }
                if forall|k: int| 0 <= k < lines.len() ==> #[trigger] lines[k].contains(':') {
                    assert(lines[0].contains(':'));
                    assert forall|k: int| 0 <= k < rest.len() implies #[trigger] rest[k].contains(':') by {
                        assert(lines[k + 1].contains(':'));
                    }
                }
            },
        }
    }
}

/// The status code that a status line gives: its second space-separated
/// part, read as a number, after a first part that starts with `HTTP/`.
pub open spec fn status_of_line(line: Seq<char>) -> Result<u16, ParseFailure> {
    let parts = split(line, seq![' ']);
    if !starts_with(parts[0], http_prefix()) || parts.len() < 2 {
        Err(ParseFailure::StatusLine(line))
    } else {
        match parse_u16(parts[1]) {
            None => Err(ParseFailure::StatusLine(line)),
            Some(c) => if 100 <= c <= 999 {
                Ok(c)
            } else {
                Err(ParseFailure::StatusCode(c))
            },
        }
    }
}

/// Where a single character `c` occurs in `s`.
proof fn lemma_occurs_single(s: Seq<char>, c: char)
    ensures
        forall|j: int| #[trigger] occurs_at(s, seq![c], j) <==> (0 <= j < s.len() && s[j] == c),
{
    assert forall|j: int| #[trigger] occurs_at(s, seq![c], j) <==> (0 <= j < s.len() && s[j] == c) by {
        if 0 <= j < s.len() {
            if s[j] == c {
                assert(s.subrange(j, j + 1) =~= seq![c]);
            }
            if s.subrange(j, j + 1) == seq![c] {
                assert(s.subrange(j, j + 1)[0] == s[j]);
            }
        }
    }
}

/// Splitting at spaces: a part without a space is one piece, and a
/// space-free part followed by a space is the first piece of the rest.
proof fn lemma_split_spaces(v: Seq<char>, y: Seq<char>)
    requires
        !v.contains(' '),
    ensures
        split(v, seq![' ']) == seq![v],
        split(v + seq![' '] + y, seq![' ']) == seq![v] + split(y, seq![' ']),
{
    let sp = seq![' '];
    lemma_occurs_single(v, ' ');
    lemma_find(v, sp);
    if let Some(k) = find(v, sp) {
        assert(occurs_at(v, sp, k));
    }
    let s = v + sp + y;
    let n = v.len() as int;
    lemma_occurs_single(s, ' ');
    lemma_find(s, sp);
    assert(occurs_at(s, sp, n));
    match find(s, sp) {
        Some(k) => {
            if k < n {
                assert(occurs_at(s, sp, k));
                assert(s[k] == v[k]);
            }
            assert(k == n);
            assert(s.take(n) =~= v);
            assert(s.skip(n + 1) =~= y);
        },
        None => {},
    }
}

/// A status line is read from its first two space-separated parts: it is
/// refused unless the first part starts with `HTTP/` and a second part
/// follows; the second part must read as a number (`u16::from_str`), and
/// one outside `100..=999` is refused as a status code. What comes after
/// the second part is ignored.
pub proof fn lemma_status_line(v: Seq<char>, x: Seq<char>, rest: Seq<char>)
    requires
        !v.contains(' '),
        !x.contains(' '),
        rest.len() == 0 || rest[0] == ' ',
    ensures
        status_of_line(v) == Err::<u16, ParseFailure>(ParseFailure::StatusLine(v)),
        ({
            let line = v + seq![' '] + x + rest;
            status_of_line(line) == if !(v.len() >= 5 && v.take(5) == seq!['H', 'T', 'T', 'P', '/']) {
                Err(ParseFailure::StatusLine(line))
            } else {
                match parse_u16(x) {
                    None => Err(ParseFailure::StatusLine(line)),
                    Some(c) => if 100 <= c && c <= 999 {
                        Ok(c)
                    } else {
                        Err(ParseFailure::StatusCode(c))
                    },
                }
            }
        }),
{
    let sp = seq![' '];
    lemma_split_spaces(v, seq![]);
    let line = v + sp + x + rest;
    assert(line == v + sp + (x + rest));
    lemma_split_spaces(v, x + rest);
    if rest.len() == 0 {
        assert(x + rest =~= x);
        lemma_split_spaces(x, seq![]);
    } else {
        assert(x + rest =~= x + sp + rest.drop_first());
        lemma_split_spaces(x, rest.drop_first());
    }
    let parts = split(line, sp);
    assert(parts[0] == v);
    assert(parts[1] == x);
}

/// What `Response::parse` gives for `bytes`: the head is everything
/// before the first `\r\n\r\n` and the body everything after it.
pub open spec fn response_of(bytes: Seq<u8>) -> Result<ResponseParts, ParseFailure> {
    match find(bytes, head_end()) {
        None => Err(ParseFailure::IncompleteHead),
        Some(n) => if !valid_utf8(bytes.take(n)) {
            Err(ParseFailure::NotUtf8)
        } else {
            let lines = split(decode_utf8(bytes.take(n)), crlf());
            match status_of_line(lines[0]) {
                Err(e) => Err(e),
                Ok(code) => match headers_of(lines.drop_first()) {
                    Err(e) => Err(e),
                    Ok(hs) => Ok(ResponseParts { status: code, headers: hs, body: bytes.skip(n + 4) }),
                },
            }
        },
    }
}

/// The headers of a parsed response are the lines of its head after the
/// status line, in order, each cut at its first `:` with both sides
/// trimmed; the body is everything after the blank line.
pub proof fn lemma_parsed_headers(bytes: Seq<u8>)
    ensures
        response_of(bytes) matches Ok(p) ==> {
            let n = find(bytes, seq![13u8, 10u8, 13u8, 10u8])->Some_0;
            let lines = split(decode_utf8(bytes.take(n)), seq!['\r', '\n']);
            &&& p.headers.len() + 1 == lines.len()
            &&& p.body == bytes.skip(n + 4)
            &&& forall|k: int, i: int|
                1 <= k < lines.len() && 0 <= i < lines[k].len() && #[trigger] lines[k][i] == ':'
                    && !lines[k].take(i).contains(':')
                    ==> #[trigger] p.headers[k - 1] == (trim(lines[k].take(i)), trim(
                    lines[k].skip(i + 1),
                ))
        },
{
    assert(head_end() =~= seq![13u8, 10u8, 13u8, 10u8]);
    assert(crlf() =~= seq!['\r', '\n']);
    if let Ok(p) = response_of(bytes) {
        let n = find(bytes, head_end())->Some_0;
        let lines = split(decode_utf8(bytes.take(n)), crlf());
        let rest = lines.drop_first();
        lemma_split_nonempty(decode_utf8(bytes.take(n)), crlf());
        lemma_headers_of(rest);
        assert forall|k: int, i: int|
            1 <= k < lines.len() && 0 <= i < lines[k].len() && #[trigger] lines[k][i] == ':'
                && !lines[k].take(i).contains(':')
            implies #[trigger] p.headers[k - 1] == (trim(lines[k].take(i)), trim(lines[k].skip(i + 1))) by {
            assert(rest[k - 1] == lines[k]);
            assert(rest[k - 1][i] == ':');
        }
    }
}

/// A parse result as plain values.
pub open spec fn parse_outcome(r: Result<Response<Vec<u8>>, ParseError>) -> Result<
    ResponseParts,
    ParseFailure,
> {
    match r {
        Ok(resp) => Ok(resp.parts()),
        Err(e) => Err(e.failure()),
    }
}

/// A status-line result as plain values.
pub open spec fn status_outcome(r: Result<StatusCode, ParseError>) -> Result<u16, ParseFailure> {
    match r {
        Ok(c) => Ok(c@),
        Err(e) => Err(e.failure()),
    }
}

/// Parses a status line such as `HTTP/1.1 404 Not Found`.
pub fn parse_status_line(line: &str) -> (r: Result<StatusCode, ParseError>)
    ensures
        status_outcome(r) == status_of_line(line@),
{
    let v = str_chars(line);
    let ghost l = v@;
    assert(l.subrange(0, l.len() as int) =~= l);
    let sp: [char; 1] = [' '];
    assert(sp@ =~= seq![' ']);
    let http: [char; 5] = ['H', 'T', 'T', 'P', '/'];
    assert(http@ =~= http_prefix());
    let n = v.len();
    let e0 = find_chars(v.as_slice(), 0, n, &sp);
    let ver_end = match e0 {
        Some(e) => e,
        None => n,
    };
    proof {
        lemma_split_nonempty(l, seq![' ']);
        let parts = split(l, seq![' ']);
        match find(l, seq![' ']) {
            Some(e) => {
                lemma_find(l, seq![' ']);
                assert(parts == seq![l.take(e)] + split(l.skip(e + 1), seq![' ']));
                assert(parts[0] == l.take(e));
                assert(e == ver_end);
                lemma_split_nonempty(l.skip(e + 1), seq![' ']);
            },
            None => {
                assert(parts[0] == l);
            },
        }
        assert(parts[0] =~= l.subrange(0, ver_end as int));
    }
    let is_http = ver_end >= 5 && chars_eq(v.as_slice(), 0, 5, &http);
    proof {
        let ver = l.subrange(0, ver_end as int);
        if ver_end >= 5 {
            assert(ver.take(5) =~= l.subrange(0, 5));
        }
    }
    if !is_http {
        return Err(ParseError::StatusLine(string_of(v.as_slice(), 0, n)));
    }
    let e = match e0 {
        Some(e) => e,
        None => {
            return Err(ParseError::StatusLine(string_of(v.as_slice(), 0, n)));
        },
    };
    let e1 = find_chars(v.as_slice(), e + 1, n, &sp);
    let code_end = match e1 {
        Some(k) => k,
        None => n,
    };
    proof {
        let rest = l.skip(e + 1);
        assert(l.subrange(e + 1, n as int) =~= rest);
        let parts = split(l, seq![' ']);
        lemma_find(l, seq![' ']);
        assert(parts == seq![l.take(e as int)] + split(rest, seq![' ']));
        assert(parts[1] == split(rest, seq![' '])[0]);
        match find(rest, seq![' ']) {
            Some(k) => {
                lemma_find(rest, seq![' ']);
                assert(split(rest, seq![' ']) == seq![rest.take(k)] + split(
                    rest.skip(k + 1),
                    seq![' '],
                ));
                assert(split(rest, seq![' '])[0] == rest.take(k));
            },
            None => {
                assert(split(rest, seq![' '])[0] == rest);
            },
        }
        assert(parts[1] =~= l.subrange(e + 1, code_end as int));
    }
    match parse_u16_chars(v.as_slice(), e + 1, code_end) {
        None => Err(ParseError::StatusLine(string_of(v.as_slice(), 0, n))),
        Some(c) => match StatusCode::from_u16(c) {
            Ok(s) => Ok(s),
            Err(_) => Err(ParseError::StatusCode(c)),
        },
    }
}

/// The bytes of a response with this status, these headers and this body.
fn encode_parts(status: &StatusCode, headers: &Vec<(String, String)>, body: &[u8]) -> (out: Vec<
    u8,
>)
    ensures
        out@ == response_bytes(
            ResponseParts { status: status@, headers: header_pairs(headers@), body: body@ },
        ),
{
    let ghost hs = header_pairs(headers@);
    let mut head = String::new();
    head.append("HTTP/1.1 ");
    proof {
        reveal_strlit("HTTP/1.1 ");
    }
    assert("HTTP/1.1 "@ =~= version_prefix());
    let status_str = status.to_string();
    head.append(status_str.as_str());
    head.append("\r\n");
    proof {
        reveal_strlit("\r\n");
    }
    assert("\r\n"@ =~= crlf());
    assert(": "@ =~= seq![':', ' ']) by {
        reveal_strlit(": ");
    }
    let ghost start = head@;
    assert(start =~= version_prefix() + status_text(status@) + crlf());
    let mut i: usize = 0;
    while i < headers.len()
        invariant
            0 <= i <= headers@.len(),
            hs == header_pairs(headers@),
            "\r\n"@ == crlf(),
            ": "@ == seq![':', ' '],
            head@ == start + header_block(hs.take(i as int)),
        decreases headers@.len() - i,
    {
        head.append(headers[i].0.as_str());
        head.append(": ");
        head.append(headers[i].1.as_str());
        head.append("\r\n");
        proof {
            assert(hs.take(i + 1).drop_last() =~= hs.take(i as int));
            assert(hs.take(i + 1).last() == hs[i as int]);
            assert(head@ =~= start + header_block(hs.take(i + 1)));
        }
        i += 1;
    }
    assert(hs.take(headers@.len() as int) =~= hs);
    head.append("Content-Length");
    proof {
        reveal_strlit("Content-Length");
    }
    assert("Content-Length"@ =~= content_length_name());
    head.append(": ");
    push_decimal(&mut head, body.len());
    head.append("\r\n");
    head.append("\r\n");
    proof {
        let all = hs.push((content_length_name(), decimal(body@.len())));
        assert(all.drop_last() =~= hs);
        assert(head@ =~= head_text(status@, hs, body@.len()));
    }
    let mut out: Vec<u8> = Vec::new();
    out.extend_from_slice(head.as_str().as_bytes());
    out.extend_from_slice(body);
    assert(out@ =~= response_bytes(
        ResponseParts { status: status@, headers: header_pairs(headers@), body: body@ },
    ));
    out
}

impl Response<Vec<u8>> {
    /// Serializes the response into the bytes sent over the wire.
    /// `Content-Length` is always derived from the body.
    pub fn encode(&self) -> (out: Vec<u8>)
        ensures
            out@ == response_bytes(self.parts()),
    {
        encode_parts(&self.status, &self.headers, self.body.as_slice())
    }
}

impl<'a> Response<&'a [u8]> {
    /// Serializes the response into the bytes sent over the wire.
    /// `Content-Length` is always derived from the body.
    pub fn encode(&self) -> (out: Vec<u8>)
        ensures
            out@ == response_bytes(
                ResponseParts {
                    status: self.status@,
                    headers: header_pairs(self.headers@),
                    body: self.body@,
                },
            ),
    {
        encode_parts(&self.status, &self.headers, self.body)
    }
}

impl Response<String> {
    /// Serializes the response into the bytes sent over the wire; the body
    /// is sent as UTF-8. `Content-Length` is always derived from the body.
    pub fn encode(&self) -> (out: Vec<u8>)
        ensures
            out@ == response_bytes(
                ResponseParts {
                    status: self.status@,
                    headers: header_pairs(self.headers@),
                    body: encode_utf8(self.body@),
                },
            ),
    {
        encode_parts(&self.status, &self.headers, self.body.as_str().as_bytes())
    }
}

/// `r` with `acc` put in front of its headers, when it is `Ok`.
pub open spec fn after(
    acc: Seq<(Seq<char>, Seq<char>)>,
    r: Result<Seq<(Seq<char>, Seq<char>)>, ParseFailure>,
) -> Result<Seq<(Seq<char>, Seq<char>)>, ParseFailure> {
    match r {
        Ok(hs) => Ok(acc + hs),
        Err(e) => Err(e),
    }
}

impl Response<Vec<u8>> {
    /// Parses a complete HTTP response. Everything after the blank line
    /// is taken as the body, so `Content-Length` is not checked.
    pub fn parse(bytes: &[u8]) -> (r: Result<Self, ParseError>)
        ensures
            parse_outcome(r) == response_of(bytes@),
    {
        let end: [u8; 4] = [13u8, 10u8, 13u8, 10u8];
        assert(end@ =~= head_end());
        let nb = bytes.len();
        let head_len = match find_bytes(bytes, 0, nb, &end) {
            Some(n) => n,
            None => {
                assert(bytes@.subrange(0, nb as int) =~= bytes@);
                return Err(ParseError::IncompleteHead);
            },
        };
        assert(bytes@.subrange(0, nb as int) =~= bytes@);
        proof {
            lemma_find(bytes@, head_end());
        }
        assert(find(bytes@, head_end()) == Some(head_len as int));
        let head_bytes = &bytes[0..head_len];
        assert(head_bytes@ =~= bytes@.take(head_len as int));
        let head = match str_from_utf8(head_bytes) {
            Ok(s) => s,
            Err(e) => {
                assert(!valid_utf8(bytes@.take(head_len as int)));
                return Err(ParseError::from(e));
            },
        };
        let mut body: Vec<u8> = Vec::new();
        body.extend_from_slice(&bytes[head_len + 4..nb]);
        assert(body@ =~= bytes@.skip(head_len + 4));

        let v = str_chars(head);
        let ghost cs = v@;
        let ghost lines = split(cs, crlf());
        let n = v.len();
        let sep: [char; 2] = ['\r', '\n'];
        assert(sep@ =~= crlf());
        assert(cs.subrange(0, n as int) =~= cs);
        assert(cs.skip(0) =~= cs);
        let first = find_chars(v.as_slice(), 0, n, &sep);
        let line_end = match first {
            Some(k) => k,
            None => n,
        };
        proof {
            lemma_find(cs, crlf());
            lemma_split_nonempty(cs, crlf());
            match find(cs, crlf()) {
                Some(k) => {
                    assert(lines == seq![cs.take(k)] + split(cs.skip(k + 2), crlf()));
                    assert(lines.drop_first() =~= split(cs.skip(k + 2), crlf()));
                },
                None => {
                    assert(lines == seq![cs]);
                    assert(lines.drop_first() =~= Seq::<Seq<char>>::empty());
                },
            }
            assert(lines[0] =~= cs.subrange(0, line_end as int));
        }
        let status_line = string_of(v.as_slice(), 0, line_end);
        assert(cs == decode_utf8(bytes@.take(head_len as int)));
        assert(status_line@ == lines[0]);
        let status = match parse_status_line(status_line.as_str()) {
            Ok(s) => s,
            Err(e) => {
                assert(status_of_line(lines[0]) == Err::<u16, ParseFailure>(e.failure()));
                return Err(e);
            },
        };

        let colon: [char; 1] = [':'];
        assert(colon@ =~= seq![':']);
        let mut headers: Vec<(String, String)> = Vec::new();
        let mut more = first.is_some();
        let mut pos: usize = match first {
            Some(k) => k + 2,
            None => n,
        };
        let ghost target = headers_of(lines.drop_first());
        assert(status_of_line(lines[0]) == Ok::<u16, ParseFailure>(status@));
        assert(response_of(bytes@) == match target {
            Ok(hs) => Ok(ResponseParts { status: status@, headers: hs, body: body@ }),
            Err(e) => Err::<ResponseParts, ParseFailure>(e),
        });
        assert(header_pairs(headers@) =~= Seq::<(Seq<char>, Seq<char>)>::empty());
        while more
            invariant
                n == v@.len(),
                cs == v@,
                sep@ == crlf(),
                colon@ == seq![':'],
                target == headers_of(lines.drop_first()),
                response_of(bytes@) == match target {
                    Ok(hs) => Ok(ResponseParts { status: status@, headers: hs, body: body@ }),
                    Err(e) => Err(e),
                },
                more ==> pos <= n && target == after(
                    header_pairs(headers@),
                    headers_of(split(cs.skip(pos as int), crlf())),
                ),
                !more ==> target == Ok::<_, ParseFailure>(header_pairs(headers@)),
            decreases n - pos + (if more { 1int } else { 0int }),
        {
            let ghost rest = cs.skip(pos as int);
            assert(cs.subrange(pos as int, n as int) =~= rest);
            let next = find_chars(v.as_slice(), pos, n, &sep);
            let stop = match next {
                Some(k) => k,
                None => n,
            };
            let ghost line = cs.subrange(pos as int, stop as int);
            proof {
                lemma_find(rest, crlf());
                match find(rest, crlf()) {
                    Some(k) => {
                        assert(split(rest, crlf()) == seq![rest.take(k)] + split(
                            rest.skip(k + 2),
                            crlf(),
                        ));
                        assert(rest.take(k) =~= line);
                        assert(rest.skip(k + 2) =~= cs.skip(stop + 2));
                        assert(split(rest, crlf()).drop_first() =~= split(cs.skip(stop + 2), crlf()));
                    },
                    None => {
                        assert(split(rest, crlf()) == seq![rest]);
                        assert(rest =~= line);
                        assert(split(rest, crlf()).drop_first() =~= Seq::<Seq<char>>::empty());
                    },
                }
                assert(split(rest, crlf())[0] == line);
            }
            let c = match find_chars(v.as_slice(), pos, stop, &colon) {
                Some(c) => c,
                None => {
                    proof {
                        assert(header_of(line) is None);
                        assert(headers_of(split(rest, crlf())) == Err::<
                            Seq<(Seq<char>, Seq<char>)>,
                            ParseFailure,
                        >(ParseFailure::HeaderLine(line)));
                    }
                    return Err(ParseError::HeaderLine(string_of(v.as_slice(), pos, stop)));
                },
            };
            let (na, nb2) = trim_bounds(v.as_slice(), pos, c);
            let (va, vb) = trim_bounds(v.as_slice(), c + 1, stop);
            let name = string_of(v.as_slice(), na, nb2);
            let value = string_of(v.as_slice(), va, vb);
            proof {
                lemma_find(line, seq![':']);
                assert(line.take(c - pos) =~= cs.subrange(pos as int, c as int));
                assert(line.skip(c - pos + 1) =~= cs.subrange(c + 1, stop as int));
                assert(header_of(line) == Some((name@, value@)));
            }
            let ghost old_pairs = header_pairs(headers@);
            headers.push((name, value));
            proof {
                let h = (name@, value@);
                assert(header_pairs(headers@) =~= old_pairs + seq![h]);
                let tail = split(rest, crlf()).drop_first();
                assert(headers_of(split(rest, crlf())) == match headers_of(tail) {
                    Ok(hs) => Ok(seq![h] + hs),
                    Err(e) => Err::<Seq<(Seq<char>, Seq<char>)>, ParseFailure>(e),
                });
                match headers_of(tail) {
                    Ok(hs) => {
                        assert(old_pairs + (seq![h] + hs) =~= (old_pairs + seq![h]) + hs);
                    },
                    Err(e) => {},
                }
                if next is None {
                    assert(tail =~= Seq::<Seq<char>>::empty());
                    assert(headers_of(tail) == Ok::<_, ParseFailure>(Seq::<(Seq<char>, Seq<char>)>::empty()));
                    assert(old_pairs + seq![h] + Seq::<(Seq<char>, Seq<char>)>::empty() =~= old_pairs + seq![h]);
                }
            }
            match next {
                Some(k) => {
                    pos = k + 2;
                },
                None => {
                    more = false;
                    pos = n;
                },
            }
        }
        Ok(Response { status, headers, body })
    }
}

} // verus!
