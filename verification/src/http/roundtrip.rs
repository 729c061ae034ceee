//! Parsing an encoded response gives back what was encoded, together with
//! the `Content-Length` header that encoding adds.

use vstd::prelude::*;
use vstd::utf8::*;

use crate::http::response::{
    head_text, response_bytes, response_of, ResponseParts, content_length_name, crlf, head_end, header_block, header_line, header_of, headers_of,
    http_prefix, reason_phrase, status_of_line, status_text, version_prefix,
};
use crate::text::{
    decimal, digit_char, digits_value, find, find_from, is_digit, is_ws, lead_ws,
    lemma_lead_ws_bound, lemma_split_nonempty, lemma_trail_ws_bound, parse_u16, split,
    starts_with, occurs_at, trail_ws, trim, unsigned_digits,
};

verus! {

// ---------------------------------------------------------------------
// UTF-8: how bytes below 0x80 sit in an encoding
// ---------------------------------------------------------------------

pub proof fn lemma_encode_concat(a: Seq<char>, b: Seq<char>)
    ensures
        encode_utf8(a + b) == encode_utf8(a) + encode_utf8(b),
    decreases a.len(),
{
    if a.len() == 0 {
        assert(a + b =~= b);
    } else {
        assert((a + b).drop_first() =~= a.drop_first() + b);
        assert((a + b)[0] == a[0]);
        lemma_encode_concat(a.drop_first(), b);
        assert(encode_utf8(a + b) =~= encode_utf8(a) + encode_utf8(b));
    }
}

proof fn lemma_multibyte_high(s: u32)
    by (bit_vector)
    ensures
        (0xC0u8 | ((s >> 6u32) & 0x1Fu32) as u8) >= 0x80u8,
        (0xE0u8 | ((s >> 12u32) & 0x0Fu32) as u8) >= 0x80u8,
        (0xF0u8 | ((s >> 18u32) & 0x7u32) as u8) >= 0x80u8,
        (0x80u8 | (s & 0x3Fu32) as u8) >= 0x80u8,
        (0x80u8 | ((s >> 6u32) & 0x3Fu32) as u8) >= 0x80u8,
        (0x80u8 | ((s >> 12u32) & 0x3Fu32) as u8) >= 0x80u8,
{
}

proof fn lemma_ascii_byte(s: u32)
    by (bit_vector)
    requires
        s <= 0x7F,
    ensures
        (s & 0x7Fu32) as u8 == s,
{
}

/// The encoding of one character: one byte equal to it when it is below
/// 0x80, else one or more bytes that are all at least 0x80.
proof fn lemma_encode_scalar(c: char)
    ensures
        encode_scalar(c as u32).len() >= 1,
        (c as u32) < 0x80 ==> encode_scalar(c as u32) == seq![(c as u32) as u8],
        (c as u32) >= 0x80 ==> forall|i: int|
            0 <= i < encode_scalar(c as u32).len() ==> #[trigger] encode_scalar(c as u32)[i]
                >= 0x80,
{
    let s = c as u32;
    lemma_multibyte_high(s);
    if s < 0x80 {
        lemma_ascii_byte(s);
    }
}

proof fn lemma_encode_len_mono(cs: Seq<char>, j: int, k: int)
    requires
        0 <= j < k <= cs.len(),
    ensures
        encode_utf8(cs.take(j)).len() < encode_utf8(cs.take(k)).len(),
{
    assert(cs.take(k) =~= cs.take(j) + cs.subrange(j, k));
    lemma_encode_concat(cs.take(j), cs.subrange(j, k));
    let rest = cs.subrange(j, k);
    lemma_encode_scalar(rest[0]);
}

proof fn lemma_encode_single(c: char)
    ensures
        encode_utf8(seq![c]) == encode_scalar(c as u32),
{
    let s = seq![c];
    assert(s.drop_first() =~= Seq::<char>::empty());
    assert(encode_utf8(s.drop_first()) == Seq::<u8>::empty());
    assert(s[0] == c);
    assert(encode_utf8(s) =~= encode_scalar(c as u32));
}

/// A byte below 0x80 in an encoding is a whole character.
proof fn lemma_ascii_position(cs: Seq<char>, q: int)
    requires
        0 <= q < encode_utf8(cs).len(),
        encode_utf8(cs)[q] < 0x80,
    ensures
        exists|j: int|
            0 <= j < cs.len() && #[trigger] encode_utf8(cs.take(j)).len() == q && cs[j] as u32
                == encode_utf8(cs)[q] as u32 && encode_utf8(cs.take(j + 1)).len() == q + 1,
    decreases cs.len(),
{
    let c = cs[0];
    let e = encode_scalar(c as u32);
    lemma_encode_scalar(c);
    assert(encode_utf8(cs) == e + encode_utf8(cs.drop_first()));
    if q < e.len() {
        if (c as u32) >= 0x80 {
            assert(encode_utf8(cs)[q] == e[q]);
            assert(false);
        }
        assert(cs.take(0) =~= Seq::<char>::empty());
        assert(cs.take(1) =~= seq![c]);
        lemma_encode_single(c);
        assert(encode_utf8(cs.take(0)).len() == 0);
    } else {
        let rest = cs.drop_first();
        assert(encode_utf8(cs)[q] == encode_utf8(rest)[q - e.len()]);
        lemma_ascii_position(rest, q - e.len());
        let j = choose|j: int|
            0 <= j < rest.len() && #[trigger] encode_utf8(rest.take(j)).len() == q - e.len()
                && rest[j] as u32 == encode_utf8(rest)[q - e.len()] as u32 && encode_utf8(
                rest.take(j + 1),
            ).len() == q - e.len() + 1;
        assert(cs.take(j + 1) =~= seq![c] + rest.take(j));
        assert(cs.take(j + 2) =~= seq![c] + rest.take(j + 1));
        lemma_encode_concat(seq![c], rest.take(j));
        lemma_encode_concat(seq![c], rest.take(j + 1));
        lemma_encode_single(c);
        assert(cs[j + 1] == rest[j]);
        assert(encode_utf8(cs.take(j + 1)).len() == q);
    }
}

proof fn lemma_encode_len_inj(cs: Seq<char>, j: int, k: int)
    requires
        0 <= j <= cs.len(),
        0 <= k <= cs.len(),
        encode_utf8(cs.take(j)).len() == encode_utf8(cs.take(k)).len(),
    ensures
        j == k,
{
    if j < k {
        lemma_encode_len_mono(cs, j, k);
    } else if k < j {
        lemma_encode_len_mono(cs, k, j);
    }
}

/// `\r\n\r\n` as characters.
pub open spec fn blank_line_chars() -> Seq<char> {
    crlf() + crlf()
}

/// The bytes `\r\n\r\n` occur in an encoding only where the characters do.
proof fn lemma_head_end_in_encoding(cs: Seq<char>, q: int)
    requires
        occurs_at(encode_utf8(cs), head_end(), q),
    ensures
        exists|j: int|
            occurs_at(cs, blank_line_chars(), j) && #[trigger] encode_utf8(cs.take(j)).len() == q,
{
    let b = encode_utf8(cs);
    assert(forall|k: int| 0 <= k < 4 ==> b[q + k] == #[trigger] head_end()[k]) by {
        assert forall|k: int| 0 <= k < 4 implies b[q + k] == #[trigger] head_end()[k] by {
            assert(b.subrange(q, q + 4)[k] == b[q + k]);
        }
    }
    assert(b[q] == 13u8 && b[q + 1] == 10u8 && b[q + 2] == 13u8 && b[q + 3] == 10u8);
    lemma_ascii_position(cs, q);
    let j0 = choose|j: int|
        0 <= j < cs.len() && #[trigger] encode_utf8(cs.take(j)).len() == q && cs[j] as u32
            == b[q] as u32 && encode_utf8(cs.take(j + 1)).len() == q + 1;
    lemma_ascii_position(cs, q + 1);
    let j1 = choose|j: int|
        0 <= j < cs.len() && #[trigger] encode_utf8(cs.take(j)).len() == q + 1 && cs[j] as u32
            == b[q + 1] as u32 && encode_utf8(cs.take(j + 1)).len() == q + 2;
    lemma_encode_len_inj(cs, j1, j0 + 1);
    lemma_ascii_position(cs, q + 2);
    let j2 = choose|j: int|
        0 <= j < cs.len() && #[trigger] encode_utf8(cs.take(j)).len() == q + 2 && cs[j] as u32
            == b[q + 2] as u32 && encode_utf8(cs.take(j + 1)).len() == q + 3;
    lemma_encode_len_inj(cs, j2, j0 + 2);
    lemma_ascii_position(cs, q + 3);
    let j3 = choose|j: int|
        0 <= j < cs.len() && #[trigger] encode_utf8(cs.take(j)).len() == q + 3 && cs[j] as u32
            == b[q + 3] as u32 && encode_utf8(cs.take(j + 1)).len() == q + 4;
    lemma_encode_len_inj(cs, j3, j0 + 3);
    char_u32_cast(cs[j0], 13u32);
    char_u32_cast(cs[j0 + 1], 10u32);
    char_u32_cast(cs[j0 + 2], 13u32);
    char_u32_cast(cs[j0 + 3], 10u32);
    assert(cs.subrange(j0, j0 + 4) =~= blank_line_chars());
}

/// The first occurrence is where `p` occurs with no occurrence before.
pub proof fn lemma_find_is<A>(s: Seq<A>, p: Seq<A>, k: int)
    requires
        occurs_at(s, p, k),
        forall|j: int| 0 <= j < k ==> !occurs_at(s, p, j),
    ensures
        find(s, p) == Some(k),
{
    lemma_find_from_is(s, p, k, 0);
}

proof fn lemma_find_from_is<A>(s: Seq<A>, p: Seq<A>, k: int, i: int)
    requires
        0 <= i <= k,
        occurs_at(s, p, k),
        forall|j: int| i <= j < k ==> !occurs_at(s, p, j),
    ensures
        find_from(s, p, i) == Some(k),
    decreases k - i,
{
    if i < k {
        lemma_find_from_is(s, p, k, i + 1);
    }
}

// ---------------------------------------------------------------------
// Lines separated by `\r\n`
// ---------------------------------------------------------------------

/// `s` holds no `\r\n`.
pub open spec fn no_crlf(s: Seq<char>) -> bool {
    forall|j: int| !occurs_at(s, crlf(), j)
}

/// A line that can stand in a head: not empty, not starting with `\r`,
/// and holding no `\r\n`.
pub open spec fn clean_line(l: Seq<char>) -> bool {
    l.len() > 0 && l[0] != '\r' && no_crlf(l)
}

/// The lines joined with `\r\n` between them.
pub open spec fn joined_lines(ls: Seq<Seq<char>>) -> Seq<char>
    decreases ls.len(),
{
    if ls.len() == 0 {
        seq![]
    } else if ls.len() == 1 {
        ls[0]
    } else {
        ls[0] + crlf() + joined_lines(ls.drop_first())
    }
}

proof fn lemma_crlf_at(s: Seq<char>, j: int)
    requires
        occurs_at(s, crlf(), j),
    ensures
        s[j] == '\r',
        s[j + 1] == '\n',
{
    assert(s.subrange(j, j + 2)[0] == s[j]);
    assert(s.subrange(j, j + 2)[1] == s[j + 1]);
}

proof fn lemma_crlf_inside(a: Seq<char>, b: Seq<char>, j: int)
    requires
        0 <= j,
        j + 2 <= a.len(),
        occurs_at(a + b, crlf(), j),
    ensures
        occurs_at(a, crlf(), j),
{
    lemma_crlf_at(a + b, j);
    assert(a.subrange(j, j + 2) =~= crlf());
}

proof fn lemma_no_crlf_concat(a: Seq<char>, b: Seq<char>)
    requires
        no_crlf(a),
        no_crlf(b),
        a.len() > 0 && b.len() > 0 ==> !(a.last() == '\r' && b[0] == '\n'),
    ensures
        no_crlf(a + b),
{
    assert forall|j: int| !occurs_at(a + b, crlf(), j) by {
        if occurs_at(a + b, crlf(), j) {
            lemma_crlf_at(a + b, j);
            if j + 2 <= a.len() {
                lemma_crlf_inside(a, b, j);
            } else if j + 1 == a.len() {
                assert((a + b)[j] == a.last());
                assert((a + b)[j + 1] == b[0]);
            } else {
                assert(b.subrange(j - a.len(), j - a.len() + 2) =~= (a + b).subrange(j, j + 2));
                assert(occurs_at(b, crlf(), j - a.len()));
            }
        }
    }
}

proof fn lemma_joined_first(ls: Seq<Seq<char>>)
    requires
        ls.len() >= 1,
        ls[0].len() > 0,
    ensures
        joined_lines(ls).len() > 0,
        joined_lines(ls)[0] == ls[0][0],
{
    if ls.len() > 1 {
        assert((ls[0] + crlf() + joined_lines(ls.drop_first()))[0] == ls[0][0]);
    }
}

proof fn lemma_blank_line_at(ls: Seq<Seq<char>>, j: int)
    requires
        ls.len() >= 1,
        forall|i: int| 0 <= i < ls.len() ==> clean_line(#[trigger] ls[i]),
        occurs_at(joined_lines(ls) + blank_line_chars(), blank_line_chars(), j),
        ls.len() > 1 ==> forall|k: int|
            occurs_at(joined_lines(ls.drop_first()) + blank_line_chars(), blank_line_chars(), k)
                ==> k == joined_lines(ls.drop_first()).len(),
    ensures
        j == joined_lines(ls).len(),
{
    let jl = joined_lines(ls);
    let p = blank_line_chars();
    let s = jl + p;
    let l = ls[0];
    assert(clean_line(l));
    assert(forall|k: int| 0 <= k < 4 ==> s[j + k] == #[trigger] p[k]) by {
        assert forall|k: int| 0 <= k < 4 implies s[j + k] == #[trigger] p[k] by {
            assert(s.subrange(j, j + 4)[k] == s[j + k]);
        }
    }
    assert(p[0] == '\r' && p[1] == '\n' && p[2] == '\r' && p[3] == '\n');
    if ls.len() == 1 {
        assert(jl == l);
        if j + 2 <= l.len() {
            assert(s.subrange(j, j + 2) =~= crlf());
            lemma_crlf_inside(l, p, j);
        } else if j + 1 == l.len() {
            assert(s[j + 1] == p[0]);
        } else if j == l.len() + 1 {
            assert(s[j] == p[1]);
        } else if j > l.len() + 1 {
            assert(j + 4 > s.len());
        }
    } else {
        let rest = ls.drop_first();
        let r = joined_lines(rest);
        assert(jl == l + crlf() + r);
        assert(s =~= l + (crlf() + (r + p)));
        if j + 2 <= l.len() {
            assert(s.subrange(j, j + 2) =~= crlf());
            lemma_crlf_inside(l, crlf() + (r + p), j);
        } else if j + 1 == l.len() {
            assert(s[j + 1] == crlf()[0]);
        } else if j == l.len() {
            assert(rest[0] == ls[1]);
            assert(clean_line(rest[0]));
            lemma_joined_first(rest);
            assert(s[j + 2] == r[0]);
        } else if j == l.len() + 1 {
            assert(s[j] == crlf()[1]);
        } else {
            let k = j - l.len() - 2;
            assert((r + p).subrange(k, k + 4) =~= s.subrange(j, j + 4));
            assert(occurs_at(r + p, p, k));
        }
    }
}

/// In clean lines followed by a blank line, `\r\n\r\n` occurs only at
/// the end of the last line.
proof fn lemma_blank_line_only_at_end(ls: Seq<Seq<char>>)
    requires
        ls.len() >= 1,
        forall|i: int| 0 <= i < ls.len() ==> clean_line(#[trigger] ls[i]),
    ensures
        occurs_at(joined_lines(ls) + blank_line_chars(), blank_line_chars(), joined_lines(ls).len() as int),
        forall|j: int|
            occurs_at(joined_lines(ls) + blank_line_chars(), blank_line_chars(), j) ==> j
                == joined_lines(ls).len(),
    decreases ls.len(),
{
    let jl = joined_lines(ls);
    let s = jl + blank_line_chars();
    let p = blank_line_chars();
    assert(s.subrange(jl.len() as int, jl.len() + 4int) =~= p);
    if ls.len() > 1 {
        let rest = ls.drop_first();
        assert(forall|i: int| 0 <= i < rest.len() ==> clean_line(#[trigger] rest[i])) by {
            assert forall|i: int| 0 <= i < rest.len() implies clean_line(#[trigger] rest[i]) by {
                assert(rest[i] == ls[i + 1]);
            }
        }
        lemma_blank_line_only_at_end(rest);
    }
    assert forall|j: int| occurs_at(s, p, j) implies j == jl.len() by {
        lemma_blank_line_at(ls, j);
    }
}

/// Splitting lines joined with `\r\n` at `\r\n` gives the lines back.
proof fn lemma_split_joined(ls: Seq<Seq<char>>)
    requires
        ls.len() >= 1,
        forall|i: int| 0 <= i < ls.len() ==> no_crlf(#[trigger] ls[i]),
    ensures
        split(joined_lines(ls), crlf()) == ls,
    decreases ls.len(),
{
    let l = ls[0];
    assert(no_crlf(l));
    if ls.len() == 1 {
        crate::text::lemma_find(l, crlf());
        assert(split(l, crlf()) =~= seq![l]);
    } else {
        let rest = ls.drop_first();
        let r = joined_lines(rest);
        let s = l + crlf() + r;
        assert(joined_lines(ls) == s);
        assert(s.subrange(l.len() as int, l.len() + 2int) =~= crlf());
        assert forall|j: int| 0 <= j < l.len() implies !occurs_at(s, crlf(), j) by {
            if occurs_at(s, crlf(), j) {
                lemma_crlf_at(s, j);
                if j + 2 <= l.len() {
                    assert(l.subrange(j, j + 2) =~= s.subrange(j, j + 2));
                    assert(occurs_at(l, crlf(), j));
                } else {
                    assert(s[j + 1] == crlf()[0]);
                    assert(crlf()[0] == '\r');
                }
            }
        }
        lemma_find_is(s, crlf(), l.len() as int);
        assert(s.take(l.len() as int) =~= l);
        assert(s.skip(l.len() + 2int) =~= r);
        assert forall|i: int| 0 <= i < rest.len() implies no_crlf(#[trigger] rest[i]) by {
            assert(rest[i] == ls[i + 1]);
        }
        lemma_split_joined(rest);
        assert(split(s, crlf()) =~= ls);
    }
}

// ---------------------------------------------------------------------
// Numbers and trimming
// ---------------------------------------------------------------------

/// A number is written in decimal: one or more ASCII digits whose value
/// is the number, with no leading zero (0 itself is `0`).
pub proof fn lemma_decimal(n: nat)
    ensures
        decimal(n).len() >= 1,
        forall|i: int| 0 <= i < decimal(n).len() ==> is_digit(#[trigger] decimal(n)[i]),
        digits_value(decimal(n)) == n,
        decimal(n)[0] == '0' <==> n == 0,
    decreases n,
{
    assert((digit_char(n % 10) as u32) == n % 10 + 48);
    assert(('0' as u32) == 48);
    if n < 10 {
        assert(decimal(n) == seq![digit_char(n)]);
        assert(decimal(n).drop_last() =~= Seq::<char>::empty());
        assert(decimal(n).last() == digit_char(n));
        assert(digits_value(decimal(n).drop_last()) == 0);
    } else {
        lemma_decimal(n / 10);
        let d = decimal(n / 10);
        assert(decimal(n) == d.push(digit_char(n % 10)));
        assert(decimal(n).drop_last() =~= d);
        assert(decimal(n)[0] == d[0]);
        assert(decimal(n).last() == digit_char(n % 10));
        assert(digits_value(decimal(n)) == digits_value(d) * 10 + (n % 10));
        assert forall|i: int| 0 <= i < decimal(n).len() implies is_digit(#[trigger] decimal(n)[i]) by {
            if i < d.len() {
                assert(decimal(n)[i] == d[i]);
            }
        }
    }
}

/// Reading a number as `u16::from_str` does: a number written in decimal,
/// with or without one leading `+`, reads back as itself when it fits in
/// 16 bits and as nothing when it does not; a part with any other
/// character, or with no digit at all, is no number.
pub proof fn lemma_parse_u16(n: nat, s: Seq<char>)
    ensures
        n <= 65535 ==> parse_u16(decimal(n)) == Some(n as u16) && parse_u16(seq!['+'] + decimal(n))
            == Some(n as u16),
        n > 65535 ==> parse_u16(decimal(n)) is None,
        parse_u16(Seq::<char>::empty()) is None,
        parse_u16(seq!['+']) is None,
        (exists|i: int| 0 <= i < s.len() && !is_digit(#[trigger] s[i]) && !(i == 0 && s[0] == '+'))
            ==> parse_u16(s) is None,
{
    lemma_decimal(n);
    let d = decimal(n);
    assert(!is_digit('+'));
    assert(d[0] != '+');
    assert(unsigned_digits(d) == d);
    let pd = seq!['+'] + d;
    assert(pd.drop_first() =~= d);
    assert(unsigned_digits(pd) == d);
    assert(unsigned_digits(seq!['+']) == seq!['+']);
    assert(seq!['+'][0] == '+');
    if exists|i: int| 0 <= i < s.len() && !is_digit(#[trigger] s[i]) && !(i == 0 && s[0] == '+') {
        let i = choose|i: int| 0 <= i < s.len() && !is_digit(#[trigger] s[i]) && !(i == 0 && s[0] == '+');
        let u = unsigned_digits(s);
        if s.len() > 1 && s[0] == '+' {
            assert(u[i - 1] == s[i]);
        } else {
            assert(u[i] == s[i]);
        }
    }
}

proof fn lemma_digit_not_special(c: char)
    requires
        is_digit(c),
    ensures
        !is_ws(c),
        c != '\r',
        c != ' ',
        c != ':',
        c != '+',
{
}

/// A sequence whose ends are not whitespace is its own trim.
proof fn lemma_trim_id(s: Seq<char>)
    requires
        s.len() > 0 ==> !is_ws(s[0]) && !is_ws(s.last()),
    ensures
        trim(s) == s,
{
    assert(lead_ws(s) == 0);
    assert(s.skip(0) =~= s);
    assert(trail_ws(s) == 0);
    assert(s.take(s.len() as int) =~= s);
}

/// A sequence that is its own trim has no whitespace at its ends.
proof fn lemma_trimmed_ends(s: Seq<char>)
    requires
        trim(s) == s,
        s.len() > 0,
    ensures
        !is_ws(s[0]),
        !is_ws(s.last()),
{
    lemma_lead_ws_bound(s);
    let t = s.skip(lead_ws(s) as int);
    lemma_trail_ws_bound(t);
    assert(lead_ws(s) == 0);
    assert(t =~= s);
    assert(trail_ws(t) == 0);
}

proof fn lemma_trim_space_prefix(v: Seq<char>)
    ensures
        trim(seq![' '] + v) == trim(v),
{
    let s = seq![' '] + v;
    assert(s[0] == ' ');
    assert(s.drop_first() =~= v);
    assert(lead_ws(s) == 1 + lead_ws(v));
    lemma_lead_ws_bound(v);
    assert(s.skip(lead_ws(s) as int) =~= v.skip(lead_ws(v) as int));
}

proof fn lemma_find_single_is(s: Seq<char>, c: char, k: int)
    requires
        0 <= k < s.len(),
        s[k] == c,
        forall|j: int| 0 <= j < k ==> s[j] != c,
    ensures
        find(s, seq![c]) == Some(k),
{
    assert(s.subrange(k, k + 1) =~= seq![c]);
    assert forall|j: int| 0 <= j < k implies !occurs_at(s, seq![c], j) by {
        if occurs_at(s, seq![c], j) {
            assert(s.subrange(j, j + 1)[0] == s[j]);
        }
    }
    lemma_find_is(s, seq![c], k);
}

proof fn lemma_find_single_none(s: Seq<char>, c: char)
    requires
        forall|j: int| 0 <= j < s.len() ==> s[j] != c,
    ensures
        find(s, seq![c]) is None,
{
    crate::text::lemma_find(s, seq![c]);
    if let Some(k) = find(s, seq![c]) {
        assert(s.subrange(k, k + 1)[0] == s[k]);
    }
}

proof fn lemma_no_cr_no_crlf(s: Seq<char>)
    requires
        forall|j: int| 0 <= j < s.len() ==> s[j] != '\r',
    ensures
        no_crlf(s),
{
    assert forall|j: int| !occurs_at(s, crlf(), j) by {
        if occurs_at(s, crlf(), j) {
            lemma_crlf_at(s, j);
        }
    }
}

// ---------------------------------------------------------------------
// Header lines and the status line
// ---------------------------------------------------------------------

/// A header as written in a head, without its line end: `name: value`.
pub open spec fn header_text(h: (Seq<char>, Seq<char>)) -> Seq<char> {
    h.0 + seq![':', ' '] + h.1
}

/// A header that parsing gives back unchanged: its name holds no `:`,
/// neither part holds `\r\n`, and neither starts or ends with whitespace.
pub open spec fn header_roundtrips(h: (Seq<char>, Seq<char>)) -> bool {
    &&& !h.0.contains(':')
    &&& no_crlf(h.0)
    &&& no_crlf(h.1)
    &&& trim(h.0) == h.0
    &&& trim(h.1) == h.1
}

proof fn lemma_colon_space()
    ensures
        no_crlf(seq![':', ' ']),
{
    let s = seq![':', ' '];
    assert forall|j: int| 0 <= j < s.len() implies s[j] != '\r' by {
        if j == 0 {
            assert(s[0] == ':');
        } else {
            assert(s[1] == ' ');
        }
    }
    lemma_no_cr_no_crlf(s);
}

proof fn lemma_header_clean(h: (Seq<char>, Seq<char>))
    requires
        header_roundtrips(h),
    ensures
        clean_line(header_text(h)),
{
    let cs = seq![':', ' '];
    lemma_colon_space();
    lemma_no_crlf_concat(h.0, cs);
    lemma_no_crlf_concat(h.0 + cs, h.1);
    let line = header_text(h);
    if h.0.len() > 0 {
        lemma_trimmed_ends(h.0);
        assert(line[0] == h.0[0]);
    } else {
        assert(line[0] == ':');
    }
    if h.1.len() > 0 {
        assert((h.0 + cs).last() == ' ');
    }
}

proof fn lemma_header_of_text(h: (Seq<char>, Seq<char>))
    requires
        header_roundtrips(h),
    ensures
        header_of(header_text(h)) == Some(h),
{
    let line = header_text(h);
    let n = h.0.len() as int;
    assert(line[n] == ':');
    assert forall|j: int| 0 <= j < n implies line[j] != ':' by {
        assert(line[j] == h.0[j]);
    }
    lemma_find_single_is(line, ':', n);
    assert(line.take(n) =~= h.0);
    assert(line.skip(n + 1) =~= seq![' '] + h.1);
    lemma_trim_space_prefix(h.1);
}

proof fn lemma_headers_of_texts(hs: Seq<(Seq<char>, Seq<char>)>)
    requires
        forall|i: int| 0 <= i < hs.len() ==> header_roundtrips(#[trigger] hs[i]),
    ensures
        headers_of(hs.map_values(|h: (Seq<char>, Seq<char>)| header_text(h))) == Ok::<
            _,
            crate::error::ParseFailure,
        >(hs),
    decreases hs.len(),
{
    let ls = hs.map_values(|h: (Seq<char>, Seq<char>)| header_text(h));
    if hs.len() == 0 {
        assert(ls.len() == 0);
        assert(hs =~= Seq::<(Seq<char>, Seq<char>)>::empty());
    } else {
        let rest = hs.drop_first();
        assert(ls.drop_first() =~= rest.map_values(|h: (Seq<char>, Seq<char>)| header_text(h)));
        assert(ls[0] == header_text(hs[0]));
        lemma_header_of_text(hs[0]);
        assert forall|i: int| 0 <= i < rest.len() implies header_roundtrips(#[trigger] rest[i]) by {
            assert(rest[i] == hs[i + 1]);
        }
        lemma_headers_of_texts(rest);
        assert(seq![hs[0]] + rest =~= hs);
        assert(headers_of(ls) == Ok::<_, crate::error::ParseFailure>(seq![hs[0]] + rest));
    }
}

proof fn lemma_version_prefix()
    ensures
        version_prefix().len() == 9,
        version_prefix()[8] == ' ',
        forall|i: int| 0 <= i < 8 ==> #[trigger] version_prefix()[i] != ' ',
        forall|i: int| 0 <= i < 9 ==> #[trigger] version_prefix()[i] != '\r',
        version_prefix().take(5) == http_prefix(),
{
    let v = version_prefix();
    assert forall|i: int| 0 <= i < 9 implies #[trigger] v[i] != '\r' && (i < 8 ==> v[i] != ' ') by {
        if i == 0 {
            assert(v[0] == 'H');
        } else if i == 1 {
            assert(v[1] == 'T');
        } else if i == 2 {
            assert(v[2] == 'T');
        } else if i == 3 {
            assert(v[3] == 'P');
        } else if i == 4 {
            assert(v[4] == '/');
        } else if i == 5 {
            assert(v[5] == '1');
        } else if i == 6 {
            assert(v[6] == '.');
        } else if i == 7 {
            assert(v[7] == '1');
        } else if i == 8 {
            assert(v[8] == ' ');
        }
    }
    assert(v.take(5) =~= http_prefix());
}

proof fn lemma_content_length_name()
    ensures
        !content_length_name().contains(':'),
        no_crlf(content_length_name()),
        trim(content_length_name()) == content_length_name(),
{
    let c = content_length_name();
    assert forall|i: int| 0 <= i < 14 implies #[trigger] c[i] != '\r' && c[i] != ':' by {
        if i == 0 {
            assert(c[0] == 'C');
        } else if i == 1 {
            assert(c[1] == 'o');
        } else if i == 2 {
            assert(c[2] == 'n');
        } else if i == 3 {
            assert(c[3] == 't');
        } else if i == 4 {
            assert(c[4] == 'e');
        } else if i == 5 {
            assert(c[5] == 'n');
        } else if i == 6 {
            assert(c[6] == 't');
        } else if i == 7 {
            assert(c[7] == '-');
        } else if i == 8 {
            assert(c[8] == 'L');
        } else if i == 9 {
            assert(c[9] == 'e');
        } else if i == 10 {
            assert(c[10] == 'n');
        } else if i == 11 {
            assert(c[11] == 'g');
        } else if i == 12 {
            assert(c[12] == 't');
        } else if i == 13 {
            assert(c[13] == 'h');
        }
    }
    lemma_no_cr_no_crlf(c);
    assert(c[0] == 'C' && c[13] == 'h');
    lemma_trim_id(c);
}

proof fn lemma_decimal_header(n: nat)
    ensures
        no_crlf(decimal(n)),
        trim(decimal(n)) == decimal(n),
{
    lemma_decimal(n);
    let d = decimal(n);
    assert forall|j: int| 0 <= j < d.len() implies d[j] != '\r' by {
        lemma_digit_not_special(d[j]);
    }
    lemma_no_cr_no_crlf(d);
    lemma_digit_not_special(d[0]);
    lemma_digit_not_special(d.last());
    lemma_trim_id(d);
}

/// The status line written for a status code.
pub open spec fn status_line(code: u16) -> Seq<char> {
    version_prefix() + status_text(code)
}

proof fn lemma_reason_phrase(code: u16)
    ensures
        reason_phrase(code) matches Some(p) ==> forall|j: int|
            0 <= j < p.len() ==> #[trigger] p[j] != '\r',
{
    if let Some(p) = reason_phrase(code) {
        assert forall|j: int| 0 <= j < p.len() implies #[trigger] p[j] != '\r' by {
            if code == 200 {
                if j == 0 {
                    assert(p[0] == 'O');
                } else {
                    assert(p[1] == 'K');
                }
            } else if code == 400 {
                if j == 0 {
                    assert(p[0] == 'B');
                } else if j == 1 {
                    assert(p[1] == 'a');
                } else if j == 2 {
                    assert(p[2] == 'd');
                } else if j == 3 {
                    assert(p[3] == ' ');
                } else if j == 4 {
                    assert(p[4] == 'R');
                } else if j == 5 {
                    assert(p[5] == 'e');
                } else if j == 6 {
                    assert(p[6] == 'q');
                } else if j == 7 {
                    assert(p[7] == 'u');
                } else if j == 8 {
                    assert(p[8] == 'e');
                } else if j == 9 {
                    assert(p[9] == 's');
                } else if j == 10 {
                    assert(p[10] == 't');
                }
            } else {
                if j == 0 {
                    assert(p[0] == 'N');
                } else if j == 1 {
                    assert(p[1] == 'o');
                } else if j == 2 {
                    assert(p[2] == 't');
                } else if j == 3 {
                    assert(p[3] == ' ');
                } else if j == 4 {
                    assert(p[4] == 'F');
                } else if j == 5 {
                    assert(p[5] == 'o');
                } else if j == 6 {
                    assert(p[6] == 'u');
                } else if j == 7 {
                    assert(p[7] == 'n');
                } else if j == 8 {
                    assert(p[8] == 'd');
                }
            }
        }
    }
}

proof fn lemma_status_line(code: u16)
    requires
        100 <= code <= 999,
    ensures
        clean_line(status_line(code)),
        status_of_line(status_line(code)) == Ok::<u16, crate::error::ParseFailure>(code),
{
    let sl = status_line(code);
    let v = version_prefix();
    let st = status_text(code);
    let d = decimal(code as nat);
    lemma_version_prefix();
    lemma_decimal(code as nat);
    lemma_reason_phrase(code);
    assert forall|j: int| 0 <= j < d.len() implies d[j] != ' ' && d[j] != '\r' by {
        lemma_digit_not_special(d[j]);
    }
    assert forall|j: int| 0 <= j < sl.len() implies sl[j] != '\r' by {
        if j < 9 {
            assert(sl[j] == v[j]);
        } else {
            assert(sl[j] == st[j - 9]);
            if j - 9 < d.len() {
                assert(st[j - 9] == d[j - 9]);
            } else {
                let p = reason_phrase(code)->0;
                assert(st =~= d + seq![' '] + p);
                if j - 9 > d.len() {
                    assert(st[j - 9] == p[j - 9 - d.len() - 1]);
                }
            }
        }
    }
    lemma_no_cr_no_crlf(sl);
    assert(sl[0] == v[0]);
    assert forall|j: int| 0 <= j < 8 implies sl[j] != ' ' by {
        assert(sl[j] == v[j]);
    }
    assert(sl[8] == v[8]);
    lemma_find_single_is(sl, ' ', 8);
    let parts = split(sl, seq![' ']);
    crate::text::lemma_find(sl, seq![' ']);
    assert(parts == seq![sl.take(8)] + split(sl.skip(9), seq![' ']));
    assert(sl.take(8).take(5) =~= v.take(5));
    assert(starts_with(parts[0], http_prefix()));
    assert(sl.skip(9) =~= st);
    lemma_split_nonempty(st, seq![' ']);
    match reason_phrase(code) {
        Some(p) => {
            assert(st =~= d + seq![' '] + p);
            assert forall|j: int| 0 <= j < d.len() implies st[j] != ' ' by {
                assert(st[j] == d[j]);
            }
            lemma_find_single_is(st, ' ', d.len() as int);
            crate::text::lemma_find(st, seq![' ']);
            assert(split(st, seq![' ']) == seq![st.take(d.len() as int)] + split(
                st.skip(d.len() + 1int),
                seq![' '],
            ));
            assert(st.take(d.len() as int) =~= d);
        },
        None => {
            assert(st == d);
            lemma_find_single_none(st, ' ');
            assert(split(st, seq![' ']) == seq![st]);
        },
    }
    assert(parts[1] == d);
    lemma_digit_not_special(d[0]);
    assert(unsigned_digits(d) == d);
    assert(parse_u16(d) == Some(code));
}

// ---------------------------------------------------------------------
// The head as a whole
// ---------------------------------------------------------------------

proof fn lemma_joined_push(ls: Seq<Seq<char>>, x: Seq<char>)
    requires
        ls.len() >= 1,
    ensures
        joined_lines(ls.push(x)) == joined_lines(ls) + crlf() + x,
    decreases ls.len(),
{
    let lx = ls.push(x);
    if ls.len() == 1 {
        assert(lx.drop_first() =~= seq![x]);
        assert(joined_lines(lx.drop_first()) == x);
    } else {
        assert(lx.drop_first() =~= ls.drop_first().push(x));
        lemma_joined_push(ls.drop_first(), x);
        assert(joined_lines(lx) =~= joined_lines(ls) + crlf() + x);
    }
}

proof fn lemma_header_block(sl: Seq<char>, g: Seq<(Seq<char>, Seq<char>)>)
    ensures
        sl + crlf() + header_block(g) == joined_lines(
            seq![sl] + g.map_values(|h: (Seq<char>, Seq<char>)| header_text(h)),
        ) + crlf(),
    decreases g.len(),
{
    let ls = seq![sl] + g.map_values(|h: (Seq<char>, Seq<char>)| header_text(h));
    if g.len() == 0 {
        assert(ls =~= seq![sl]);
        assert(sl + crlf() + header_block(g) =~= sl + crlf());
    } else {
        let g0 = g.drop_last();
        lemma_header_block(sl, g0);
        let ls0 = seq![sl] + g0.map_values(|h: (Seq<char>, Seq<char>)| header_text(h));
        assert(ls =~= ls0.push(header_text(g.last())));
        lemma_joined_push(ls0, header_text(g.last()));
        assert(header_line(g.last()) =~= header_text(g.last()) + crlf());
        assert(sl + crlf() + header_block(g) =~= joined_lines(ls) + crlf());
    }
}

proof fn lemma_blank_line_bytes()
    ensures
        encode_utf8(blank_line_chars()) == head_end(),
{
    let b = blank_line_chars();
    assert(b =~= seq!['\r', '\n', '\r', '\n']);
    assert(is_ascii_chars(b));
    is_ascii_chars_encode_utf8(b);
    assert(encode_utf8(b) =~= head_end());
}

/// Parsing the bytes of an encoded response gives back its status, its
/// headers followed by the `Content-Length` header that encoding adds, and
/// its body, whenever every header survives parsing unchanged (its name
/// holds no `:`, neither part holds `\r\n`, and neither starts or ends with
/// whitespace).
pub proof fn lemma_parse_encoded(r: ResponseParts)
    requires
        100 <= r.status <= 999,
        forall|i: int| 0 <= i < r.headers.len() ==> header_roundtrips(#[trigger] r.headers[i]),
    ensures
        response_of(response_bytes(r)) == Ok::<ResponseParts, crate::error::ParseFailure>(
            ResponseParts {
                status: r.status,
                headers: r.headers.push((content_length_name(), decimal(r.body.len()))),
                body: r.body,
            },
        ),
{
    let n = r.body.len();
    let cl = (content_length_name(), decimal(n));
    let hs2 = r.headers.push(cl);
    lemma_content_length_name();
    lemma_decimal_header(n);
    assert(header_roundtrips(cl));
    assert forall|i: int| 0 <= i < hs2.len() implies header_roundtrips(#[trigger] hs2[i]) by {
        if i < r.headers.len() {
            assert(hs2[i] == r.headers[i]);
        }
    }
    let sl = status_line(r.status);
    let texts = hs2.map_values(|h: (Seq<char>, Seq<char>)| header_text(h));
    let ls = seq![sl] + texts;
    lemma_header_block(sl, hs2);
    let jl = joined_lines(ls);
    let h = jl + blank_line_chars();
    assert(head_text(r.status, r.headers, n) =~= h);
    lemma_status_line(r.status);
    assert forall|i: int| 0 <= i < ls.len() implies clean_line(#[trigger] ls[i]) by {
        if i == 0 {
            assert(ls[0] == sl);
        } else {
            assert(ls[i] == header_text(hs2[i - 1]));
            lemma_header_clean(hs2[i - 1]);
        }
    }
    lemma_blank_line_only_at_end(ls);
    // bytes
    let ej = encode_utf8(jl);
    let bytes = response_bytes(r);
    lemma_encode_concat(jl, blank_line_chars());
    lemma_blank_line_bytes();
    assert(bytes =~= ej + head_end() + r.body);
    let k = ej.len() as int;
    assert(bytes.subrange(k, k + 4) =~= head_end());
    assert forall|q: int| 0 <= q < k implies !occurs_at(bytes, head_end(), q) by {
        if occurs_at(bytes, head_end(), q) {
            let eh = encode_utf8(h);
            assert(eh =~= ej + head_end());
            assert(eh.subrange(q, q + 4) =~= bytes.subrange(q, q + 4));
            lemma_head_end_in_encoding(h, q);
            let j = choose|j: int|
                occurs_at(h, blank_line_chars(), j) && #[trigger] encode_utf8(h.take(j)).len() == q;
            assert(j == jl.len());
            assert(h.take(j) =~= jl);
        }
    }
    lemma_find_is(bytes, head_end(), k);
    assert(bytes.take(k) =~= ej);
    assert(bytes.skip(k + 4) =~= r.body);
    encode_utf8_valid_utf8(jl);
    encode_utf8_decode_utf8(jl);
    assert forall|i: int| 0 <= i < ls.len() implies no_crlf(#[trigger] ls[i]) by {
        assert(clean_line(ls[i]));
    }
    lemma_split_joined(ls);
    assert(ls[0] == sl);
    assert(ls.drop_first() =~= texts);
    lemma_headers_of_texts(hs2);
}

} // verus!
