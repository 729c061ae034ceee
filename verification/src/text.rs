//! Character-level helpers shared by the HTTP code: Unicode whitespace,
//! searching and splitting sequences, trimming, decimal numbers, and the
//! conversions between bytes, `str`, `String` and `Vec<char>`.

use vstd::prelude::*;
use vstd::utf8::*;

verus! {

// ---------------------------------------------------------------------
// Whitespace
// ---------------------------------------------------------------------

/// The characters for which `char::is_whitespace` holds: those with the
/// Unicode `White_Space` property.
pub open spec fn is_ws(c: char) -> bool {
    let u = c as u32;
    ||| 0x09 <= u <= 0x0D
    ||| u == 0x20
    ||| u == 0x85
    ||| u == 0xA0
    ||| u == 0x1680
    ||| 0x2000 <= u <= 0x200A
    ||| u == 0x2028
    ||| u == 0x2029
    ||| u == 0x202F
    ||| u == 0x205F
    ||| u == 0x3000
}

/// Executable form of [`is_ws`].
pub fn is_whitespace(c: char) -> (b: bool)
    ensures
        b == is_ws(c),
{
    let u: u32 = c as u32;
    (0x09 <= u && u <= 0x0D) || u == 0x20 || u == 0x85 || u == 0xA0 || u == 0x1680 || (0x2000
        <= u && u <= 0x200A) || u == 0x2028 || u == 0x2029 || u == 0x202F || u == 0x205F || u
        == 0x3000
}

/// Number of whitespace characters at the start of `s`.
pub open spec fn lead_ws(s: Seq<char>) -> nat
    decreases s.len(),
{
    if s.len() > 0 && is_ws(s[0]) {
        1 + lead_ws(s.drop_first())
    } else {
        0
    }
}

/// Number of whitespace characters at the end of `s`.
pub open spec fn trail_ws(s: Seq<char>) -> nat
    decreases s.len(),
{
    if s.len() > 0 && is_ws(s.last()) {
        1 + trail_ws(s.drop_last())
    } else {
        0
    }
}

/// `s` with leading and trailing whitespace removed (`str::trim`).
pub open spec fn trim(s: Seq<char>) -> Seq<char> {
    let t = s.skip(lead_ws(s) as int);
    t.take(t.len() - trail_ws(t))
}

/// Number of characters at the start of `s` before the first whitespace.
pub open spec fn word_len(s: Seq<char>) -> nat
    decreases s.len(),
{
    if s.len() > 0 && !is_ws(s[0]) {
        1 + word_len(s.drop_first())
    } else {
        0
    }
}

pub proof fn lemma_lead_ws_bound(s: Seq<char>)
    ensures
        lead_ws(s) <= s.len(),
        forall|j: int| 0 <= j < lead_ws(s) ==> is_ws(#[trigger] s[j]),
        lead_ws(s) < s.len() ==> !is_ws(s[lead_ws(s) as int]),
    decreases s.len(),
{
    if s.len() > 0 && is_ws(s[0]) {
        lemma_lead_ws_bound(s.drop_first());
        assert forall|j: int| 0 <= j < lead_ws(s) implies is_ws(#[trigger] s[j]) by {
            if j > 0 {
                assert(s[j] == s.drop_first()[j - 1]);
            }
        }
    }
}

pub proof fn lemma_trail_ws_bound(s: Seq<char>)
    ensures
        trail_ws(s) <= s.len(),
        forall|j: int| s.len() - trail_ws(s) <= j < s.len() ==> is_ws(#[trigger] s[j]),
        trail_ws(s) < s.len() ==> !is_ws(s[s.len() - trail_ws(s) - 1]),
    decreases s.len(),
{
    if s.len() > 0 && is_ws(s.last()) {
        lemma_trail_ws_bound(s.drop_last());
        assert forall|j: int| s.len() - trail_ws(s) <= j < s.len() implies is_ws(#[trigger] s[j]) by {
            if j < s.len() - 1 {
                assert(s[j] == s.drop_last()[j]);
            }
        }
    }
}

pub proof fn lemma_word_len_bound(s: Seq<char>)
    ensures
        word_len(s) <= s.len(),
        forall|j: int| 0 <= j < word_len(s) ==> !is_ws(#[trigger] s[j]),
        word_len(s) < s.len() ==> is_ws(s[word_len(s) as int]),
    decreases s.len(),
{
    if s.len() > 0 && !is_ws(s[0]) {
        lemma_word_len_bound(s.drop_first());
        assert forall|j: int| 0 <= j < word_len(s) implies !is_ws(#[trigger] s[j]) by {
            if j > 0 {
                assert(s[j] == s.drop_first()[j - 1]);
            }
        }
    }
}

/// `lead_ws` is determined by where the first non-whitespace character is.
pub proof fn lemma_lead_ws_is(s: Seq<char>, i: int)
    requires
        0 <= i <= s.len(),
        forall|j: int| 0 <= j < i ==> is_ws(#[trigger] s[j]),
        i < s.len() ==> !is_ws(s[i]),
    ensures
        lead_ws(s) == i,
    decreases i,
{
    if i > 0 {
        assert forall|j: int| 0 <= j < i - 1 implies is_ws(#[trigger] s.drop_first()[j]) by {
            assert(s.drop_first()[j] == s[j + 1]);
        }
        lemma_lead_ws_is(s.drop_first(), i - 1);
    }
}

/// `trail_ws` is determined by where the last non-whitespace character is.
pub proof fn lemma_trail_ws_is(s: Seq<char>, i: int)
    requires
        0 <= i <= s.len(),
        forall|j: int| i <= j < s.len() ==> is_ws(#[trigger] s[j]),
        0 < i ==> !is_ws(s[i - 1]),
    ensures
        trail_ws(s) == s.len() - i,
    decreases s.len() - i,
{
    if i < s.len() {
        assert forall|j: int| i <= j < s.len() - 1 implies is_ws(#[trigger] s.drop_last()[j]) by {
            assert(s.drop_last()[j] == s[j]);
        }
        lemma_trail_ws_is(s.drop_last(), i);
    }
}

/// `word_len` is determined by where the first whitespace character is.
pub proof fn lemma_word_len_is(s: Seq<char>, i: int)
    requires
        0 <= i <= s.len(),
        forall|j: int| 0 <= j < i ==> !is_ws(#[trigger] s[j]),
        i < s.len() ==> is_ws(s[i]),
    ensures
        word_len(s) == i,
    decreases i,
{
    if i > 0 {
        assert forall|j: int| 0 <= j < i - 1 implies !is_ws(#[trigger] s.drop_first()[j]) by {
            assert(s.drop_first()[j] == s[j + 1]);
        }
        lemma_word_len_is(s.drop_first(), i - 1);
    }
}

/// The whitespace-separated words of `s` (`str::split_whitespace`).
pub open spec fn words(s: Seq<char>) -> Seq<Seq<char>>
    decreases s.len(),
{
    let t = s.skip(lead_ws(s) as int);
    if lead_ws(s) >= s.len() {
        seq![]
    } else {
        let k = word_len(t);
        proof {
            lemma_lead_ws_bound(s);
            lemma_word_len_bound(t);
        }
        if k == 0 {
            seq![]
        } else {
            seq![t.take(k as int)] + words(t.skip(k as int))
        }
    }
}

/// `trim` removes exactly the whitespace at both ends: what is left is a
/// contiguous part of `s`, everything cut off is whitespace, and what is
/// left neither starts nor ends with whitespace.
pub proof fn lemma_trim(s: Seq<char>)
    ensures
        exists|a: int, b: int|
            0 <= a <= b <= s.len() && trim(s) == s.subrange(a, b) && (forall|i: int|
                0 <= i < a ==> is_ws(#[trigger] s[i])) && (forall|i: int|
                b <= i < s.len() ==> is_ws(#[trigger] s[i])),
        trim(s).len() > 0 ==> !is_ws(trim(s)[0]) && !is_ws(trim(s).last()),
{
    lemma_lead_ws_bound(s);
    let a = lead_ws(s) as int;
    let t = s.skip(a);
    lemma_trail_ws_bound(t);
    let b = a + t.len() - trail_ws(t);
    assert(trim(s) =~= s.subrange(a, b));
    assert forall|i: int| b <= i < s.len() implies is_ws(#[trigger] s[i]) by {
        assert(s[i] == t[i - a]);
    }
    if trim(s).len() > 0 {
        assert(trim(s)[0] == s[a]);
        assert(trim(s).last() == t[t.len() - trail_ws(t) - 1]);
    }
}

/// A non-empty run of characters without whitespace is one word.
pub proof fn lemma_words_single(w: Seq<char>)
    requires
        w.len() > 0,
        forall|i: int| 0 <= i < w.len() ==> !is_ws(#[trigger] w[i]),
    ensures
        words(w) == seq![w],
{
    lemma_lead_ws_is(w, 0);
    assert(w.skip(0) =~= w);
    lemma_word_len_is(w, w.len() as int);
    assert(w.take(w.len() as int) =~= w);
    assert(w.skip(w.len() as int) =~= Seq::<char>::empty());
    assert(lead_ws(Seq::<char>::empty()) == 0);
    assert(words(Seq::<char>::empty()) =~= Seq::<Seq<char>>::empty());
    assert(seq![w] + Seq::<Seq<char>>::empty() =~= seq![w]);
}

/// Whitespace in front of `z` adds to its leading whitespace.
pub proof fn lemma_lead_ws_prefix(w: Seq<char>, z: Seq<char>)
    requires
        forall|i: int| 0 <= i < w.len() ==> is_ws(#[trigger] w[i]),
    ensures
        lead_ws(w + z) == w.len() + lead_ws(z),
    decreases w.len(),
{
    if w.len() > 0 {
        assert((w + z)[0] == w[0]);
        assert((w + z).drop_first() =~= w.drop_first() + z);
        assert forall|i: int| 0 <= i < w.drop_first().len() implies is_ws(#[trigger] w.drop_first()[i]) by {
            assert(w.drop_first()[i] == w[i + 1]);
        }
        lemma_lead_ws_prefix(w.drop_first(), z);
    } else {
        assert(w + z =~= z);
    }
}

/// What follows a sequence that is not all whitespace does not change its
/// leading whitespace.
proof fn lemma_lead_ws_append(r: Seq<char>, y: Seq<char>)
    requires
        lead_ws(r) < r.len(),
    ensures
        lead_ws(r + y) == lead_ws(r),
    decreases r.len(),
{
    assert((r + y)[0] == r[0]);
    if is_ws(r[0]) {
        assert((r + y).drop_first() =~= r.drop_first() + y);
        lemma_lead_ws_append(r.drop_first(), y);
    }
}

/// A word ends where it ended before when what follows starts with
/// whitespace (or is empty), or when it ended before the end.
proof fn lemma_word_len_append(t: Seq<char>, y: Seq<char>)
    requires
        word_len(t) < t.len() || y.len() == 0 || is_ws(y[0]),
    ensures
        word_len(t + y) == word_len(t),
    decreases t.len(),
{
    if t.len() == 0 {
        assert(t + y =~= y);
    } else {
        assert((t + y)[0] == t[0]);
        if !is_ws(t[0]) {
            assert((t + y).drop_first() =~= t.drop_first() + y);
            lemma_word_len_append(t.drop_first(), y);
        }
    }
}

/// Leading whitespace does not change the words.
pub proof fn lemma_words_ws_prefix(w: Seq<char>, z: Seq<char>)
    requires
        forall|i: int| 0 <= i < w.len() ==> is_ws(#[trigger] w[i]),
    ensures
        words(w + z) == words(z),
{
    lemma_lead_ws_prefix(w, z);
    lemma_lead_ws_bound(z);
    assert((w + z).skip(lead_ws(w + z) as int) =~= z.skip(lead_ws(z) as int));
}

/// The words of `r` followed by something that starts with whitespace (or
/// is empty) are the words of `r`, then the words of what follows.
pub proof fn lemma_words_append(r: Seq<char>, y: Seq<char>)
    requires
        y.len() == 0 || is_ws(y[0]),
    ensures
        words(r + y) == words(r) + words(y),
    decreases r.len(),
{
    lemma_lead_ws_bound(r);
    if lead_ws(r) >= r.len() {
        assert(words(r) =~= Seq::<Seq<char>>::empty());
        assert forall|i: int| 0 <= i < r.len() implies is_ws(#[trigger] r[i]) by {}
        lemma_words_ws_prefix(r, y);
        assert(words(r) + words(y) =~= words(y));
    } else {
        let a = lead_ws(r) as int;
        lemma_lead_ws_append(r, y);
        let t = r.skip(a);
        let ty = (r + y).skip(a);
        assert(ty =~= t + y);
        lemma_word_len_bound(t);
        lemma_word_len_append(t, y);
        let k = word_len(t) as int;
        assert(t[0] == r[a]);
        assert(k > 0);
        assert(ty.take(k) =~= t.take(k));
        assert(ty.skip(k) =~= t.skip(k) + y);
        lemma_lead_ws_bound(r + y);
        lemma_words_append(t.skip(k), y);
        assert(words(r + y) == seq![t.take(k)] + words(t.skip(k) + y));
        assert(words(r) == seq![t.take(k)] + words(t.skip(k)));
        assert(words(r + y) =~= words(r) + words(y));
    }
}

/// The position in `v` of the first non-whitespace character at or after `lo`.
pub fn skip_whitespace(v: &[char], lo: usize) -> (i: usize)
    requires
        lo <= v@.len(),
    ensures
        i == lo + lead_ws(v@.skip(lo as int)),
        i <= v@.len(),
{
    let mut i: usize = lo;
    while i < v.len() && is_whitespace(v[i])
        invariant
            lo <= i <= v@.len(),
            forall|j: int| lo <= j < i ==> is_ws(#[trigger] v@[j]),
        decreases v@.len() - i,
    {
        i += 1;
    }
    proof {
        let s = v@.skip(lo as int);
        assert forall|j: int| 0 <= j < i - lo implies is_ws(#[trigger] s[j]) by {
            assert(s[j] == v@[lo + j]);
        }
        lemma_lead_ws_is(s, i - lo);
    }
    i
}

/// The position in `v` of the first whitespace character at or after `lo`
/// (or the end of `v`).
pub fn skip_word(v: &[char], lo: usize) -> (i: usize)
    requires
        lo <= v@.len(),
    ensures
        i == lo + word_len(v@.skip(lo as int)),
        i <= v@.len(),
{
    let mut i: usize = lo;
    while i < v.len() && !is_whitespace(v[i])
        invariant
            lo <= i <= v@.len(),
            forall|j: int| lo <= j < i ==> !is_ws(#[trigger] v@[j]),
        decreases v@.len() - i,
    {
        i += 1;
    }
    proof {
        let s = v@.skip(lo as int);
        assert forall|j: int| 0 <= j < i - lo implies !is_ws(#[trigger] s[j]) by {
            assert(s[j] == v@[lo + j]);
        }
        lemma_word_len_is(s, i - lo);
    }
    i
}

/// The bounds `(a, b)` such that `v[a..b]` is `v[lo..hi]` trimmed.
pub fn trim_bounds(v: &[char], lo: usize, hi: usize) -> (r: (usize, usize))
    requires
        lo <= hi <= v@.len(),
    ensures
        lo <= r.0 <= r.1 <= hi,
        v@.subrange(r.0 as int, r.1 as int) == trim(v@.subrange(lo as int, hi as int)),
{
    let mut a: usize = lo;
    while a < hi && is_whitespace(v[a])
        invariant
            lo <= a <= hi <= v@.len(),
            forall|j: int| lo <= j < a ==> is_ws(#[trigger] v@[j]),
        decreases hi - a,
    {
        a += 1;
    }
    let mut b: usize = hi;
    while b > a && is_whitespace(v[b - 1])
        invariant
            lo <= a <= b <= hi <= v@.len(),
            forall|j: int| b <= j < hi ==> is_ws(#[trigger] v@[j]),
        decreases b - a,
    {
        b -= 1;
    }
    proof {
        let s = v@.subrange(lo as int, hi as int);
        assert forall|j: int| 0 <= j < a - lo implies is_ws(#[trigger] s[j]) by {
            assert(s[j] == v@[lo + j]);
        }
        lemma_lead_ws_is(s, a - lo);
        let t = s.skip(lead_ws(s) as int);
        assert(t =~= v@.subrange(a as int, hi as int));
        assert forall|j: int| b - a <= j < t.len() implies is_ws(#[trigger] t[j]) by {
            assert(t[j] == v@[a + j]);
        }
        lemma_trail_ws_is(t, b - a);
        assert(t.take(t.len() - trail_ws(t)) =~= v@.subrange(a as int, b as int));
    }
    (a, b)
}

// ---------------------------------------------------------------------
// Searching and splitting
// ---------------------------------------------------------------------

/// `p` occurs in `s` starting at index `i`.
pub open spec fn occurs_at<A>(s: Seq<A>, p: Seq<A>, i: int) -> bool {
    0 <= i && i + p.len() <= s.len() && s.subrange(i, i + p.len()) == p
}

/// The first index at or after `i` where `p` occurs in `s`.
pub open spec fn find_from<A>(s: Seq<A>, p: Seq<A>, i: int) -> Option<int>
    decreases s.len() - i,
{
    if i < 0 || i + p.len() > s.len() {
        None
    } else if occurs_at(s, p, i) {
        Some(i)
    } else if i >= s.len() {
        None
    } else {
        find_from(s, p, i + 1)
    }
}

/// The first index where `p` occurs in `s`, if it occurs at all.
pub open spec fn find<A>(s: Seq<A>, p: Seq<A>) -> Option<int> {
    find_from(s, p, 0)
}

pub proof fn lemma_find_from<A>(s: Seq<A>, p: Seq<A>, i: int)
    requires
        0 <= i,
    ensures
        find_from(s, p, i) matches Some(k) ==> i <= k && occurs_at(s, p, k) && forall|j: int|
            i <= j < k ==> !occurs_at(s, p, j),
        find_from(s, p, i) is None ==> forall|j: int| i <= j ==> !occurs_at(s, p, j),
    decreases s.len() - i,
{
    if i + p.len() > s.len() {
    } else if occurs_at(s, p, i) {
    } else if i >= s.len() {
    } else {
        lemma_find_from(s, p, i + 1);
    }
}

pub proof fn lemma_find<A>(s: Seq<A>, p: Seq<A>)
    ensures
        find(s, p) matches Some(k) ==> occurs_at(s, p, k) && forall|j: int|
            0 <= j < k ==> !occurs_at(s, p, j),
        find(s, p) is None ==> forall|j: int| !occurs_at(s, p, j),
{
    lemma_find_from(s, p, 0);
}

/// `s` cut at every (non-overlapping, leftmost) occurrence of `p`,
/// the pieces in order (`str::split` with a non-empty pattern).
pub open spec fn split(s: Seq<char>, p: Seq<char>) -> Seq<Seq<char>>
    decreases s.len(),
{
    if p.len() == 0 {
        seq![s]
    } else {
        match find(s, p) {
            None => seq![s],
            Some(i) => {
                proof {
                    lemma_find(s, p);
                }
                seq![s.take(i)] + split(s.skip(i + p.len()), p)
            },
        }
    }
}

pub proof fn lemma_split_nonempty(s: Seq<char>, p: Seq<char>)
    ensures
        split(s, p).len() >= 1,
    decreases s.len(),
{
    if p.len() > 0 {
        if let Some(i) = find(s, p) {
            lemma_find(s, p);
            lemma_split_nonempty(s.skip(i + p.len()), p);
        }
    }
}

/// The first index `k` of `v[lo..hi]` where `p` occurs, as an index of `v`.
pub fn find_chars(v: &[char], lo: usize, hi: usize, p: &[char]) -> (r: Option<usize>)
    requires
        lo <= hi <= v@.len(),
        p@.len() > 0,
    ensures
        match find(v@.subrange(lo as int, hi as int), p@) {
            Some(k) => r == Some((k + lo) as usize),
            None => r is None,
        },
        r matches Some(k) ==> lo <= k && k + p@.len() <= hi,
{
    let ghost s = v@.subrange(lo as int, hi as int);
    let plen: usize = p.len();
    let mut i: usize = lo;
    while i < hi && plen <= hi - i
        invariant
            lo <= i <= hi <= v@.len(),
            plen == p@.len(),
            plen > 0,
            s == v@.subrange(lo as int, hi as int),
            find(s, p@) == find_from(s, p@, i - lo),
        decreases v@.len() - i,
    {
        let mut j: usize = 0;
        let mut same = true;
        while j < plen
            invariant
                0 <= j <= plen,
                plen == p@.len(),
                i + plen <= hi,
                hi <= v.len(),
                same <==> forall|m: int| 0 <= m < j ==> v@[i + m] == p@[m],
            decreases plen - j,
        {
            if v[i + j] != p[j] {
                same = false;
            }
            j += 1;
        }
        proof {
            let k = i - lo;
            if same {
                assert(s.subrange(k, k + plen) =~= p@) by {
                    assert forall|m: int| 0 <= m < plen implies s.subrange(k, k + plen)[m]
                        == p@[m] by {
                        assert(s.subrange(k, k + plen)[m] == v@[i + m]);
                    }
                }
            } else {
                let m = choose|m: int| 0 <= m < plen && v@[i + m] != p@[m];
                assert(s.subrange(k, k + plen)[m] == v@[i + m]);
            }
        }
        if same {
            return Some(i);
        }
        i += 1;
    }
    None
}

/// The first index `k` of `v[lo..hi]` where `p` occurs, as an index of `v`.
pub fn find_bytes(v: &[u8], lo: usize, hi: usize, p: &[u8]) -> (r: Option<usize>)
    requires
        lo <= hi <= v@.len(),
        p@.len() > 0,
    ensures
        match find(v@.subrange(lo as int, hi as int), p@) {
            Some(k) => r == Some((k + lo) as usize),
            None => r is None,
        },
        r matches Some(k) ==> lo <= k && k + p@.len() <= hi,
{
    let ghost s = v@.subrange(lo as int, hi as int);
    let plen: usize = p.len();
    let mut i: usize = lo;
    while i < hi && plen <= hi - i
        invariant
            lo <= i <= hi <= v@.len(),
            plen == p@.len(),
            plen > 0,
            s == v@.subrange(lo as int, hi as int),
            find(s, p@) == find_from(s, p@, i - lo),
        decreases v@.len() - i,
    {
        let mut j: usize = 0;
        let mut same = true;
        while j < plen
            invariant
                0 <= j <= plen,
                plen == p@.len(),
                i + plen <= hi,
                hi <= v.len(),
                same <==> forall|m: int| 0 <= m < j ==> v@[i + m] == p@[m],
            decreases plen - j,
        {
            if v[i + j] != p[j] {
                same = false;
            }
            j += 1;
        }
        proof {
            let k = i - lo;
            if same {
                assert(s.subrange(k, k + plen) =~= p@) by {
                    assert forall|m: int| 0 <= m < plen implies s.subrange(k, k + plen)[m]
                        == p@[m] by {
                        assert(s.subrange(k, k + plen)[m] == v@[i + m]);
                    }
                }
            } else {
                let m = choose|m: int| 0 <= m < plen && v@[i + m] != p@[m];
                assert(s.subrange(k, k + plen)[m] == v@[i + m]);
            }
        }
        if same {
            return Some(i);
        }
        i += 1;
    }
    None
}

// ---------------------------------------------------------------------
// Decimal numbers
// ---------------------------------------------------------------------

/// The ASCII digit for `d < 10`.
pub open spec fn digit_char(d: nat) -> char {
    (d + 48) as char
}

/// The decimal representation of `n`, without sign or leading zeros.
pub open spec fn decimal(n: nat) -> Seq<char>
    decreases n,
{
    if n < 10 {
        seq![digit_char(n)]
    } else {
        decimal(n / 10).push(digit_char(n % 10))
    }
}

/// Calls `String::push`, which appends one character.
#[verifier::external_body]
pub fn push_char(s: &mut String, c: char)
    ensures
        final(s)@ == old(s)@.push(c),
{
    s.push(c);
}

/// Appends the decimal representation of `n` to `s`.
pub fn push_decimal(s: &mut String, n: usize)
    ensures
        final(s)@ == old(s)@ + decimal(n as nat),
    decreases n,
{
    if n >= 10 {
        push_decimal(s, n / 10);
    }
    let d: u8 = (n % 10) as u8;
    let c: char = (d + 48) as char;
    push_char(s, c);
    proof {
        if n >= 10 {
            assert(decimal(n as nat) == decimal((n / 10) as nat).push(digit_char((n % 10) as nat)));
        }
    }
    assert(s@ =~= old(s)@ + decimal(n as nat));
}

// ---------------------------------------------------------------------
// Unsigned numbers
// ---------------------------------------------------------------------

/// `c` is an ASCII decimal digit.
pub open spec fn is_digit(c: char) -> bool {
    48 <= (c as u32) <= 57
}

/// The value of a sequence of decimal digits (0 for the empty sequence).
pub open spec fn digits_value(s: Seq<char>) -> nat
    decreases s.len(),
{
    if s.len() == 0 {
        0
    } else {
        digits_value(s.drop_last()) * 10 + ((s.last() as u32) - 48) as nat
    }
}

/// The digits that `u16::from_str` reads: `s` without one leading `+`,
/// when something follows it.
pub open spec fn unsigned_digits(s: Seq<char>) -> Seq<char> {
    if s.len() > 1 && s[0] == '+' {
        s.drop_first()
    } else {
        s
    }
}

/// What `s.parse::<u16>()` gives: an optional `+`, then one or more ASCII
/// digits whose value fits in 16 bits; `None` for anything else.
pub open spec fn parse_u16(s: Seq<char>) -> Option<u16> {
    let d = unsigned_digits(s);
    if d.len() > 0 && (forall|i: int| 0 <= i < d.len() ==> is_digit(#[trigger] d[i]))
        && digits_value(d) <= 65535 {
        Some(digits_value(d) as u16)
    } else {
        None
    }
}

proof fn lemma_digits_value_prefix(s: Seq<char>, i: int)
    requires
        0 <= i <= s.len(),
        forall|j: int| 0 <= j < s.len() ==> is_digit(#[trigger] s[j]),
    ensures
        digits_value(s.take(i)) <= digits_value(s),
    decreases s.len(),
{
    if i < s.len() {
        assert(s.drop_last().take(i) =~= s.take(i));
        assert forall|j: int| 0 <= j < s.drop_last().len() implies is_digit(
            #[trigger] s.drop_last()[j],
        ) by {
            assert(s.drop_last()[j] == s[j]);
        }
        lemma_digits_value_prefix(s.drop_last(), i);
    } else {
        assert(s.take(i) =~= s);
    }
}

/// Parses `v[lo..hi]` as `str::parse::<u16>` does.
pub fn parse_u16_chars(v: &[char], lo: usize, hi: usize) -> (r: Option<u16>)
    requires
        lo <= hi <= v@.len(),
    ensures
        r == parse_u16(v@.subrange(lo as int, hi as int)),
{
    let ghost s = v@.subrange(lo as int, hi as int);
    let mut start: usize = lo;
    if hi - lo > 1 && v[lo] == '+' {
        start = lo + 1;
    }
    let ghost d = v@.subrange(start as int, hi as int);
    assert(unsigned_digits(s) =~= d);
    if start == hi {
        return None;
    }
    let mut acc: u32 = 0;
    let mut i: usize = start;
    while i < hi
        invariant
            lo <= start <= i <= hi <= v@.len(),
            d == v@.subrange(start as int, hi as int),
            d == unsigned_digits(s),
            s == v@.subrange(lo as int, hi as int),
            start < hi,
            forall|j: int| start <= j < i ==> is_digit(#[trigger] v@[j]),
            acc as nat == digits_value(v@.subrange(start as int, i as int)),
            acc <= 65535,
        decreases hi - i,
    {
        let c: char = v[i];
        let u: u32 = c as u32;
        if u < 48 || u > 57 {
            assert(d[i - start] == c);
            return None;
        }
        assert(v@.subrange(start as int, i + 1).drop_last() =~= v@.subrange(start as int, i as int));
        acc = acc * 10 + (u - 48);
        i += 1;
        if acc > 65535 {
            proof {
                assert(v@.subrange(start as int, i as int) =~= d.take(i - start));
                if forall|j: int| 0 <= j < d.len() ==> is_digit(#[trigger] d[j]) {
                    lemma_digits_value_prefix(d, i - start);
                }
            }
            return None;
        }
    }
    proof {
        assert(v@.subrange(start as int, i as int) =~= d);
        assert forall|j: int| 0 <= j < d.len() implies is_digit(#[trigger] d[j]) by {
            assert(d[j] == v@[start + j]);
        }
    }
    Some(acc as u16)
}

/// `v[lo..hi]` holds exactly the characters of `p`.
pub fn chars_eq(v: &[char], lo: usize, hi: usize, p: &[char]) -> (b: bool)
    requires
        lo <= hi <= v@.len(),
    ensures
        b == (v@.subrange(lo as int, hi as int) == p@),
{
    if hi - lo != p.len() {
        return false;
    }
    let mut i: usize = 0;
    while i < p.len()
        invariant
            lo <= hi <= v@.len(),
            hi - lo == p@.len(),
            0 <= i <= p@.len(),
            forall|j: int| 0 <= j < i ==> v@[lo + j] == p@[j],
        decreases p@.len() - i,
    {
        if v[lo + i] != p[i] {
            assert(v@.subrange(lo as int, hi as int)[i as int] == v@[lo + i]);
            return false;
        }
        i += 1;
    }
    assert(v@.subrange(lo as int, hi as int) =~= p@);
    true
}

/// `p` is a prefix of `s`.
pub open spec fn starts_with(s: Seq<char>, p: Seq<char>) -> bool {
    p.len() <= s.len() && s.take(p.len() as int) == p
}

// ---------------------------------------------------------------------
// Conversions
// ---------------------------------------------------------------------

/// The characters of a string slice, in order.
pub fn str_chars(s: &str) -> (v: Vec<char>)
    ensures
        v@ == s@,
{
    broadcast use vstd::string::group_string_axioms;

    let mut v: Vec<char> = Vec::new();
    for c in it: s.chars()
        invariant
            v@ == it.seq().take(it.index()),
    {
        v.push(c);
    }
    v
}

/// A `String` holding the characters `v[lo..hi]`.
pub fn string_of(v: &[char], lo: usize, hi: usize) -> (r: String)
    requires
        lo <= hi <= v@.len(),
    ensures
        r@ == v@.subrange(lo as int, hi as int),
{
    let mut r = String::new();
    let mut i: usize = lo;
    while i < hi
        invariant
            lo <= i <= hi <= v@.len(),
            r@ == v@.subrange(lo as int, i as int),
        decreases hi - i,
    {
        push_char(&mut r, v[i]);
        assert(r@ =~= v@.subrange(lo as int, i + 1));
        i += 1;
    }
    r
}

/// std's `Utf8Error`, carried along as it is.
#[verifier::external_type_specification]
#[verifier::external_body]
pub struct ExUtf8Error(std::str::Utf8Error);

/// Calls `std::str::from_utf8`. It returns `Ok` exactly when the bytes are
/// well-formed UTF-8, and then the string holds the characters they encode;
/// nothing is said of the error value.
#[verifier::external_body]
pub fn str_from_utf8(bytes: &[u8]) -> (r: Result<&str, std::str::Utf8Error>)
    ensures
        r is Ok <==> valid_utf8(bytes@),
        r matches Ok(s) ==> s@ == decode_utf8(bytes@),
{
    std::str::from_utf8(bytes)
}

} // verus!
