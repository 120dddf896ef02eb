//! Character-sequence primitives shared by every parser and rule.
//!
//! Text is handled as a sequence of `char`s. Every helper works on a slice
//! range `[lo, hi)` and is specified over `Seq<char>` views, so that the
//! rules built on top can state their results over plain sequences.
use vstd::prelude::*;

verus! {

/// Unicode `White_Space`: exactly the characters for which `char::is_whitespace` holds.
pub open spec fn is_ws(c: char) -> bool {
    ||| c == ' '
    ||| ('\t' <= c && c <= '\r')
    ||| c == '\u{85}'
    ||| c == '\u{a0}'
    ||| c == '\u{1680}'
    ||| ('\u{2000}' <= c && c <= '\u{200a}')
    ||| c == '\u{2028}'
    ||| c == '\u{2029}'
    ||| c == '\u{202f}'
    ||| c == '\u{205f}'
    ||| c == '\u{3000}'
}

/// ASCII whitespace as `u8::is_ascii_whitespace` defines it.
pub open spec fn is_ascii_ws(c: char) -> bool {
    c == ' ' || c == '\t' || c == '\n' || c == '\x0C' || c == '\r'
}

pub open spec fn is_digit(c: char) -> bool {
    '0' <= c && c <= '9'
}

pub open spec fn is_ascii_alpha(c: char) -> bool {
    ('a' <= c && c <= 'z') || ('A' <= c && c <= 'Z')
}

pub open spec fn is_ascii_alnum(c: char) -> bool {
    is_ascii_alpha(c) || is_digit(c)
}

/// `char::to_ascii_lowercase`.
pub open spec fn lower_ascii(c: char) -> char {
    if 'A' <= c && c <= 'Z' {
        ((c as u32) + 32) as char
    } else {
        c
    }
}

/// `char::to_ascii_uppercase`.
pub open spec fn upper_ascii(c: char) -> char {
    if 'a' <= c && c <= 'z' {
        ((c as u32) - 32) as char
    } else {
        c
    }
}

pub fn char_is_ws(c: char) -> (b: bool)
    ensures
        b == is_ws(c),
{
    c == ' ' || ('\t' <= c && c <= '\r') || c == '\u{85}' || c == '\u{a0}' || c == '\u{1680}'
        || ('\u{2000}' <= c && c <= '\u{200a}') || c == '\u{2028}' || c == '\u{2029}' || c
        == '\u{202f}' || c == '\u{205f}' || c == '\u{3000}'
}

pub fn char_is_ascii_ws(c: char) -> (b: bool)
    ensures
        b == is_ascii_ws(c),
{
    c == ' ' || c == '\t' || c == '\n' || c == '\x0C' || c == '\r'
}

pub fn char_is_digit(c: char) -> (b: bool)
    ensures
        b == is_digit(c),
{
    '0' <= c && c <= '9'
}

pub fn char_is_ascii_alpha(c: char) -> (b: bool)
    ensures
        b == is_ascii_alpha(c),
{
    ('a' <= c && c <= 'z') || ('A' <= c && c <= 'Z')
}

pub fn char_lower_ascii(c: char) -> (r: char)
    ensures
        r == lower_ascii(c),
{
    if 'A' <= c && c <= 'Z' {
        let v: u32 = (c as u32) + 32;
        assert(v <= 0x7f);
        char_from_ascii(v)
    } else {
        c
    }
}

pub fn char_upper_ascii(c: char) -> (r: char)
    ensures
        r == upper_ascii(c),
{
    if 'a' <= c && c <= 'z' {
        let v: u32 = (c as u32) - 32;
        char_from_ascii(v)
    } else {
        c
    }
}

/// The ASCII character with code `v`.
pub fn char_from_ascii(v: u32) -> (c: char)
    requires
        v <= 0x7f,
    ensures
        c == v as char,
        c as u32 == v,
{
    let b: u8 = v as u8;
    b as char
}

// ---------------------------------------------------------------------------
// Specifications of the classic string operations over `Seq<char>`
// ---------------------------------------------------------------------------
/// Number of leading whitespace characters (`str::trim_start`).
pub open spec fn lead_ws(t: Seq<char>) -> nat
    decreases t.len(),
{
    if t.len() > 0 && is_ws(t[0]) {
        1 + lead_ws(t.drop_first())
    } else {
        0
    }
}

/// Number of trailing whitespace characters (`str::trim_end`).
pub open spec fn trail_ws(t: Seq<char>) -> nat
    decreases t.len(),
{
    if t.len() > 0 && is_ws(t.last()) {
        1 + trail_ws(t.drop_last())
    } else {
        0
    }
}

pub open spec fn trim_start(t: Seq<char>) -> Seq<char> {
    t.skip(lead_ws(t) as int)
}

pub open spec fn trim_end(t: Seq<char>) -> Seq<char> {
    t.take(t.len() - trail_ws(t))
}

pub open spec fn trim(t: Seq<char>) -> Seq<char> {
    trim_end(trim_start(t))
}

pub open spec fn starts_with(t: Seq<char>, p: Seq<char>) -> bool {
    p.len() <= t.len() && t.take(p.len() as int) == p
}

pub open spec fn ends_with(t: Seq<char>, p: Seq<char>) -> bool {
    p.len() <= t.len() && t.skip(t.len() - p.len()) == p
}

/// Index of the first occurrence of `p` in `t` (`str::find`).
pub open spec fn find(t: Seq<char>, p: Seq<char>) -> Option<int>
    decreases t.len(),
{
    if starts_with(t, p) {
        Some(0)
    } else if t.len() == 0 {
        None
    } else {
        match find(t.drop_first(), p) {
            Some(i) => Some(i + 1),
            None => None,
        }
    }
}

/// Index of the first occurrence of character `c` in `t`.
pub open spec fn find_char(t: Seq<char>, c: char) -> Option<int>
    decreases t.len(),
{
    if t.len() == 0 {
        None
    } else if t[0] == c {
        Some(0)
    } else {
        match find_char(t.drop_first(), c) {
            Some(i) => Some(i + 1),
            None => None,
        }
    }
}

/// `str::contains`.
pub open spec fn contains(t: Seq<char>, p: Seq<char>) -> bool {
    find(t, p) is Some
}

/// `str::eq_ignore_ascii_case`.
pub open spec fn eq_ignore_case(a: Seq<char>, b: Seq<char>) -> bool {
    a.len() == b.len() && forall|i: int| 0 <= i < a.len() ==> lower_ascii(#[trigger] a[i]) == lower_ascii(b[i])
}

/// `str::strip_suffix('\r')`, keeping the line when it has no carriage return.
pub open spec fn strip_cr(t: Seq<char>) -> Seq<char> {
    if t.len() > 0 && t.last() == '\r' {
        t.drop_last()
    } else {
        t
    }
}

// ---------------------------------------------------------------------------
// Lemmas
// ---------------------------------------------------------------------------
pub proof fn lemma_lead_ws_bound(t: Seq<char>)
    ensures
        lead_ws(t) <= t.len(),
        forall|i: int| 0 <= i < lead_ws(t) ==> is_ws(#[trigger] t[i]),
        lead_ws(t) < t.len() ==> !is_ws(t[lead_ws(t) as int]),
    decreases t.len(),
{
    if t.len() > 0 && is_ws(t[0]) {
        lemma_lead_ws_bound(t.drop_first());
        assert forall|i: int| 0 <= i < lead_ws(t) implies is_ws(#[trigger] t[i]) by {
            if i > 0 {
                assert(t[i] == t.drop_first()[i - 1]);
            }
        }
        if lead_ws(t) < t.len() {
            assert(t[lead_ws(t) as int] == t.drop_first()[lead_ws(t.drop_first()) as int]);
        }
    }
}

pub proof fn lemma_trail_ws_bound(t: Seq<char>)
    ensures
        trail_ws(t) <= t.len(),
        forall|i: int| t.len() - trail_ws(t) <= i < t.len() ==> is_ws(#[trigger] t[i]),
        trail_ws(t) < t.len() ==> !is_ws(t[t.len() - trail_ws(t) - 1]),
    decreases t.len(),
{
    if t.len() > 0 && is_ws(t.last()) {
        lemma_trail_ws_bound(t.drop_last());
        assert forall|i: int| t.len() - trail_ws(t) <= i < t.len() implies is_ws(#[trigger] t[i]) by {
            if i < t.len() - 1 {
                assert(t[i] == t.drop_last()[i]);
            }
        }
        if trail_ws(t) < t.len() {
            assert(t[t.len() - trail_ws(t) - 1] == t.drop_last()[t.drop_last().len() - trail_ws(t.drop_last()) - 1]);
        }
    }
}

/// Characterizes `lead_ws` by the index where the first non-whitespace sits.
pub proof fn lemma_lead_ws_at(t: Seq<char>, k: int)
    requires
        0 <= k <= t.len(),
        forall|i: int| 0 <= i < k ==> is_ws(#[trigger] t[i]),
        k == t.len() || !is_ws(t[k]),
    ensures
        lead_ws(t) == k,
    decreases t.len(),
{
    if k > 0 {
        assert forall|i: int| 0 <= i < k - 1 implies is_ws(#[trigger] t.drop_first()[i]) by {
            assert(t.drop_first()[i] == t[i + 1]);
        }
        if k < t.len() {
            assert(t.drop_first()[k - 1] == t[k]);
        }
        lemma_lead_ws_at(t.drop_first(), k - 1);
    }
}

/// Characterizes `trail_ws` by the index where the trailing whitespace run starts.
pub proof fn lemma_trail_ws_at(t: Seq<char>, k: int)
    requires
        0 <= k <= t.len(),
        forall|i: int| k <= i < t.len() ==> is_ws(#[trigger] t[i]),
        k == 0 || !is_ws(t[k - 1]),
    ensures
        trail_ws(t) == t.len() - k,
    decreases t.len(),
{
    if k < t.len() {
        let d = t.drop_last();
        assert forall|i: int| k <= i < d.len() implies is_ws(#[trigger] d[i]) by {
            assert(d[i] == t[i]);
        }
        if k > 0 {
            assert(d[k - 1] == t[k - 1]);
        }
        assert(is_ws(t.last()));
        lemma_trail_ws_at(d, k);
    }
}

/// Characterizes `find_char` by the index of the first match.
pub proof fn lemma_find_char_at(t: Seq<char>, c: char, k: int)
    requires
        0 <= k <= t.len(),
        forall|i: int| 0 <= i < k ==> #[trigger] t[i] != c,
        k == t.len() || t[k] == c,
    ensures
        k == t.len() ==> find_char(t, c) is None,
        k < t.len() ==> find_char(t, c) == Some(k),
    decreases t.len(),
{
    if t.len() > 0 && k > 0 {
        assert forall|i: int| 0 <= i < k - 1 implies #[trigger] t.drop_first()[i] != c by {
            assert(t.drop_first()[i] == t[i + 1]);
        }
        if k < t.len() {
            assert(t.drop_first()[k - 1] == t[k]);
        }
        lemma_find_char_at(t.drop_first(), c, k - 1);
    }
}

/// Characterizes `find` by the index of the first match.
pub proof fn lemma_find_at(t: Seq<char>, p: Seq<char>, k: int)
    requires
        0 <= k <= t.len(),
        forall|i: int| 0 <= i < k ==> !starts_with(#[trigger] t.skip(i), p),
        starts_with(t.skip(k), p),
    ensures
        find(t, p) == Some(k),
    decreases t.len(),
{
    assert(t.skip(0) =~= t);
    if k > 0 {
        assert(!starts_with(t.skip(0), p));
        let d = t.drop_first();
        assert forall|i: int| 0 <= i < k - 1 implies !starts_with(#[trigger] d.skip(i), p) by {
            assert(d.skip(i) =~= t.skip(i + 1));
        }
        assert(d.skip(k - 1) =~= t.skip(k));
        lemma_find_at(d, p, k - 1);
    }
}

/// `find` fails when no suffix starts with the pattern.
pub proof fn lemma_find_none(t: Seq<char>, p: Seq<char>)
    requires
        forall|i: int| 0 <= i <= t.len() ==> !starts_with(#[trigger] t.skip(i), p),
    ensures
        find(t, p) is None,
    decreases t.len(),
{
    assert(t.skip(0) =~= t);
    assert(!starts_with(t.skip(0), p));
    if t.len() > 0 {
        let d = t.drop_first();
        assert forall|i: int| 0 <= i <= d.len() implies !starts_with(#[trigger] d.skip(i), p) by {
            assert(d.skip(i) =~= t.skip(i + 1));
        }
        lemma_find_none(d, p);
    }
}

pub proof fn lemma_find_char_bound(t: Seq<char>, c: char)
    ensures
        find_char(t, c) matches Some(k) ==> 0 <= k < t.len() && t[k] == c && forall|i: int|
            0 <= i < k ==> #[trigger] t[i] != c,
        find_char(t, c) is None ==> forall|i: int| 0 <= i < t.len() ==> #[trigger] t[i] != c,
    decreases t.len(),
{
    if t.len() > 0 && t[0] != c {
        lemma_find_char_bound(t.drop_first(), c);
        assert forall|i: int| 1 <= i < t.len() implies #[trigger] t[i] == t.drop_first()[i - 1] by {}
    }
}

pub proof fn lemma_find_bound(t: Seq<char>, p: Seq<char>)
    ensures
        find(t, p) matches Some(k) ==> 0 <= k <= t.len() && starts_with(t.skip(k), p)
            && forall|i: int| 0 <= i < k ==> !starts_with(#[trigger] t.skip(i), p),
        find(t, p) is None ==> forall|i: int| 0 <= i <= t.len() ==> !starts_with(#[trigger] t.skip(i), p),
    decreases t.len(),
{
    assert(t.skip(0) =~= t);
    if !starts_with(t, p) && t.len() > 0 {
        let d = t.drop_first();
        lemma_find_bound(d, p);
        assert forall|i: int| 1 <= i <= t.len() implies #[trigger] t.skip(i) =~= d.skip(i - 1) by {}
        assert forall|i: int| 1 <= i <= t.len() implies starts_with(#[trigger] t.skip(i), p) == starts_with(d.skip(i - 1), p) by {
            assert(t.skip(i) =~= d.skip(i - 1));
        }
    }
}

// ---------------------------------------------------------------------------
// Executable helpers on character ranges
// ---------------------------------------------------------------------------
/// The characters of `s`, in order.
pub fn str_chars(s: &str) -> (v: Vec<char>)
    ensures
        v@ == s@,
{
    let mut v: Vec<char> = Vec::new();
    for c in it: s.chars()
        invariant
            v@ == it.seq().take(it.index() as int),
            it.seq() == s@,
    {
        v.push(c);
    }
    v
}

/// A `String` holding the characters `v`.
#[verifier::external_body]
pub fn string_from(v: &[char]) -> (s: String)
    ensures
        s@ == v@,
{
    v.iter().collect()
}

/// A copy of `s[lo..hi]`.
pub fn copy_range(s: &[char], lo: usize, hi: usize) -> (v: Vec<char>)
    requires
        lo <= hi <= s@.len(),
    ensures
        v@ == s@.subrange(lo as int, hi as int),
{
    let mut v: Vec<char> = Vec::new();
    let mut i = lo;
    while i < hi
        invariant
            lo <= i <= hi <= s@.len(),
            v@ == s@.subrange(lo as int, i as int),
        decreases hi - i,
    {
        v.push(s[i]);
        i += 1;
    }
    v
}

/// `String` of `s[lo..hi]`.
pub fn string_of(s: &[char], lo: usize, hi: usize) -> (r: String)
    requires
        lo <= hi <= s@.len(),
    ensures
        r@ == s@.subrange(lo as int, hi as int),
{
    let v = copy_range(s, lo, hi);
    string_from(v.as_slice())
}

/// Appends `t` to `v`.
pub fn push_all(v: &mut Vec<char>, t: &[char])
    ensures
        final(v)@ == old(v)@ + t@,
{
    let mut i: usize = 0;
    while i < t.len()
        invariant
            i <= t@.len(),
            v@ == old(v)@ + t@.take(i as int),
        decreases t.len() - i,
    {
        v.push(t[i]);
        i += 1;
        assert(t@.take(i as int) =~= t@.take(i - 1) + seq![t@[i - 1]]);
    }
    assert(t@.take(t@.len() as int) =~= t@);
}

/// Appends the characters of `s` to `v`.
pub fn push_str(v: &mut Vec<char>, s: &str)
    ensures
        final(v)@ == old(v)@ + s@,
{
    let t = str_chars(s);
    push_all(v, t.as_slice());
}

/// First index `k` in `[lo, hi)` whose character is not whitespace, or `hi`.
pub fn skip_ws(s: &[char], lo: usize, hi: usize) -> (k: usize)
    requires
        lo <= hi <= s@.len(),
    ensures
        lo <= k <= hi,
        k - lo == lead_ws(s@.subrange(lo as int, hi as int)),
        s@.subrange(k as int, hi as int) == trim_start(s@.subrange(lo as int, hi as int)),
{
    let mut k = lo;
    while k < hi && char_is_ws(s[k])
        invariant
            lo <= k <= hi <= s@.len(),
            forall|i: int| lo <= i < k ==> is_ws(#[trigger] s@[i]),
        decreases hi - k,
    {
        k += 1;
    }
    proof {
        let t = s@.subrange(lo as int, hi as int);
        assert forall|i: int| 0 <= i < k - lo implies is_ws(#[trigger] t[i]) by {
            assert(t[i] == s@[lo + i]);
        }
        if k < hi {
            assert(t[k - lo] == s@[k as int]);
        }
        lemma_lead_ws_at(t, k - lo);
        assert(s@.subrange(k as int, hi as int) =~= t.skip(k - lo));
    }
    k
}

/// Smallest `k` in `[lo, hi]` such that `s[k..hi]` is all whitespace.
pub fn rskip_ws(s: &[char], lo: usize, hi: usize) -> (k: usize)
    requires
        lo <= hi <= s@.len(),
    ensures
        lo <= k <= hi,
        hi - k == trail_ws(s@.subrange(lo as int, hi as int)),
        s@.subrange(lo as int, k as int) == trim_end(s@.subrange(lo as int, hi as int)),
{
    let mut k = hi;
    while k > lo && char_is_ws(s[k - 1])
        invariant
            lo <= k <= hi <= s@.len(),
            forall|i: int| k <= i < hi ==> is_ws(#[trigger] s@[i]),
        decreases k - lo,
    {
        k -= 1;
    }
    proof {
        let t = s@.subrange(lo as int, hi as int);
        assert forall|i: int| k - lo <= i < t.len() implies is_ws(#[trigger] t[i]) by {
            assert(t[i] == s@[lo + i]);
        }
        if k > lo {
            assert(t[k - lo - 1] == s@[k - 1]);
        }
        lemma_trail_ws_at(t, k - lo);
        assert(s@.subrange(lo as int, k as int) =~= t.take(t.len() - trail_ws(t)));
    }
    k
}

/// The bounds of `trim(s[lo..hi])`.
pub fn trim_range(s: &[char], lo: usize, hi: usize) -> (r: (usize, usize))
    requires
        lo <= hi <= s@.len(),
    ensures
        lo <= r.0 <= r.1 <= hi,
        s@.subrange(r.0 as int, r.1 as int) == trim(s@.subrange(lo as int, hi as int)),
        r.0 - lo == lead_ws(s@.subrange(lo as int, hi as int)),
{
    let a = skip_ws(s, lo, hi);
    let b = rskip_ws(s, a, hi);
    (a, b)
}

/// The end of `s[lo..hi]` with one trailing `'\r'` removed.
pub fn strip_cr_end(s: &[char], lo: usize, hi: usize) -> (k: usize)
    requires
        lo <= hi <= s@.len(),
    ensures
        lo <= k <= hi,
        s@.subrange(lo as int, k as int) == strip_cr(s@.subrange(lo as int, hi as int)),
{
    if hi > lo && s[hi - 1] == '\r' {
        assert(s@.subrange(lo as int, hi - 1) =~= s@.subrange(lo as int, hi as int).drop_last());
        hi - 1
    } else {
        hi
    }
}

/// Whether `s[lo..hi]` begins with `p`.
pub fn starts_with_at(s: &[char], lo: usize, hi: usize, p: &[char]) -> (b: bool)
    requires
        lo <= hi <= s@.len(),
    ensures
        b == starts_with(s@.subrange(lo as int, hi as int), p@),
{
    if p.len() > hi - lo {
        return false;
    }
    let mut i: usize = 0;
    while i < p.len()
        invariant
            i <= p@.len() <= hi - lo,
            lo <= hi <= s@.len(),
            forall|j: int| 0 <= j < i ==> s@[lo + j] == #[trigger] p@[j],
        decreases p.len() - i,
    {
        if s[lo + i] != p[i] {
            assert(s@.subrange(lo as int, hi as int).take(p@.len() as int)[i as int] == s@[lo + i]);
            return false;
        }
        i += 1;
    }
    assert(s@.subrange(lo as int, hi as int).take(p@.len() as int) =~= p@);
    true
}

/// Whether `s[lo..hi]` begins with the characters of `p`.
pub fn starts_with_str(s: &[char], lo: usize, hi: usize, p: &str) -> (b: bool)
    requires
        lo <= hi <= s@.len(),
    ensures
        b == starts_with(s@.subrange(lo as int, hi as int), p@),
{
    let pv = str_chars(p);
    starts_with_at(s, lo, hi, pv.as_slice())
}

/// Whether `s[lo..hi]` equals `p`.
pub fn eq_at(s: &[char], lo: usize, hi: usize, p: &[char]) -> (b: bool)
    requires
        lo <= hi <= s@.len(),
    ensures
        b == (s@.subrange(lo as int, hi as int) == p@),
{
    if hi - lo != p.len() {
        return false;
    }
    let b = starts_with_at(s, lo, hi, p);
    assert(s@.subrange(lo as int, hi as int).take(p@.len() as int) =~= s@.subrange(lo as int, hi as int));
    b
}

/// Whether `s[lo..hi]` equals the characters of `p`.
pub fn eq_str(s: &[char], lo: usize, hi: usize, p: &str) -> (b: bool)
    requires
        lo <= hi <= s@.len(),
    ensures
        b == (s@.subrange(lo as int, hi as int) == p@),
{
    let pv = str_chars(p);
    eq_at(s, lo, hi, pv.as_slice())
}

/// Whether two character slices are equal.
pub fn seq_eq(a: &[char], b: &[char]) -> (r: bool)
    ensures
        r == (a@ == b@),
{
    let r = eq_at(a, 0, a.len(), b);
    assert(a@.subrange(0, a@.len() as int) =~= a@);
    r
}

/// Whether two strings are equal.
pub fn str_eq(a: &str, b: &str) -> (r: bool)
    ensures
        r == (a@ == b@),
{
    let av = str_chars(a);
    let bv = str_chars(b);
    seq_eq(av.as_slice(), bv.as_slice())
}

/// Whether `s[lo..hi]` equals `p` up to ASCII case.
pub fn eq_ignore_case_at(s: &[char], lo: usize, hi: usize, p: &[char]) -> (b: bool)
    requires
        lo <= hi <= s@.len(),
    ensures
        b == eq_ignore_case(s@.subrange(lo as int, hi as int), p@),
{
    let ghost t = s@.subrange(lo as int, hi as int);
    if hi - lo != p.len() {
        return false;
    }
    let mut i: usize = 0;
    while i < p.len()
        invariant
            i <= p@.len() == hi - lo,
            lo <= hi <= s@.len(),
            t == s@.subrange(lo as int, hi as int),
            forall|j: int| 0 <= j < i ==> lower_ascii(#[trigger] t[j]) == lower_ascii(p@[j]),
        decreases p.len() - i,
    {
        if char_lower_ascii(s[lo + i]) != char_lower_ascii(p[i]) {
            assert(t[i as int] == s@[lo + i]);
            return false;
        }
        assert(t[i as int] == s@[lo + i]);
        i += 1;
    }
    true
}

/// Whether `s[lo..hi]` equals the characters of `p` up to ASCII case.
pub fn eq_ignore_case_str(s: &[char], lo: usize, hi: usize, p: &str) -> (b: bool)
    requires
        lo <= hi <= s@.len(),
    ensures
        b == eq_ignore_case(s@.subrange(lo as int, hi as int), p@),
{
    let pv = str_chars(p);
    eq_ignore_case_at(s, lo, hi, pv.as_slice())
}

/// First index of `c` in `s[lo..hi]`, as an absolute index.
pub fn find_char_at(s: &[char], lo: usize, hi: usize, c: char) -> (r: Option<usize>)
    requires
        lo <= hi <= s@.len(),
    ensures
        r matches Some(k) ==> lo <= k < hi && find_char(s@.subrange(lo as int, hi as int), c) == Some(
            k - lo,
        ),
        r is None ==> find_char(s@.subrange(lo as int, hi as int), c) is None,
{
    let mut k = lo;
    while k < hi && s[k] != c
        invariant
            lo <= k <= hi <= s@.len(),
            forall|i: int| lo <= i < k ==> #[trigger] s@[i] != c,
        decreases hi - k,
    {
        k += 1;
    }
    proof {
        let t = s@.subrange(lo as int, hi as int);
        assert forall|i: int| 0 <= i < k - lo implies #[trigger] t[i] != c by {
            assert(t[i] == s@[lo + i]);
        }
        if k < hi {
            assert(t[k - lo] == s@[k as int]);
        }
        lemma_find_char_at(t, c, k - lo);
    }
    if k < hi {
        Some(k)
    } else {
        None
    }
}

/// First index of `p` in `s[lo..hi]`, as an absolute index.
pub fn find_at(s: &[char], lo: usize, hi: usize, p: &[char]) -> (r: Option<usize>)
    requires
        lo <= hi <= s@.len(),
    ensures
        r matches Some(k) ==> lo <= k <= hi && k + p@.len() <= hi && find(
            s@.subrange(lo as int, hi as int),
            p@,
        ) == Some(k - lo),
        r is None ==> find(s@.subrange(lo as int, hi as int), p@) is None,
{
    let ghost t = s@.subrange(lo as int, hi as int);
    let mut k = lo;
    loop
        invariant
            lo <= k <= hi <= s@.len(),
            t == s@.subrange(lo as int, hi as int),
            forall|i: int| 0 <= i < k - lo ==> !starts_with(#[trigger] t.skip(i), p@),
        decreases hi - k,
    {
        let m = starts_with_at(s, k, hi, p);
        assert(s@.subrange(k as int, hi as int) =~= t.skip(k - lo));
        if m {
            proof {
                lemma_find_at(t, p@, k - lo);
            }
            return Some(k);
        }
        if k == hi {
            proof {
                assert forall|i: int| 0 <= i <= t.len() implies !starts_with(#[trigger] t.skip(i), p@) by {
                    if i == t.len() {
                        assert(i == k - lo);
                    }
                }
                lemma_find_none(t, p@);
            }
            return None;
        }
        k += 1;
    }
}

/// First index of the characters of `p` in `s[lo..hi]`, as an absolute index.
pub fn find_str(s: &[char], lo: usize, hi: usize, p: &str) -> (r: Option<usize>)
    requires
        lo <= hi <= s@.len(),
    ensures
        r matches Some(k) ==> lo <= k <= hi && k + p@.len() <= hi && find(
            s@.subrange(lo as int, hi as int),
            p@,
        ) == Some(k - lo),
        r is None ==> find(s@.subrange(lo as int, hi as int), p@) is None,
{
    let pv = str_chars(p);
    find_at(s, lo, hi, pv.as_slice())
}

/// Whether `s[lo..hi]` contains the characters of `p`.
pub fn contains_str(s: &[char], lo: usize, hi: usize, p: &str) -> (b: bool)
    requires
        lo <= hi <= s@.len(),
    ensures
        b == contains(s@.subrange(lo as int, hi as int), p@),
{
    find_str(s, lo, hi, p).is_some()
}

/// End of the line that starts at `lo`: the index of the next `'\n'`, or the length.
pub fn line_end(s: &[char], lo: usize) -> (e: usize)
    requires
        lo <= s@.len(),
    ensures
        lo <= e <= s@.len(),
        e == nl_end(s@, lo as int),
{
    let mut k = lo;
    while k < s.len() && s[k] != '\n'
        invariant
            lo <= k <= s@.len(),
            nl_end(s@, lo as int) == nl_end(s@, k as int),
        decreases s.len() - k,
    {
        k += 1;
    }
    k
}

/// Index of the first `'\n'` at or after `i`, or the length of `s`.
pub open spec fn nl_end(s: Seq<char>, i: int) -> int
    decreases s.len() - i,
{
    if i >= s.len() {
        s.len() as int
    } else if s[i] == '\n' {
        i
    } else {
        nl_end(s, i + 1)
    }
}

pub proof fn lemma_nl_end(s: Seq<char>, i: int)
    requires
        0 <= i <= s.len(),
    ensures
        i <= nl_end(s, i) <= s.len(),
        nl_end(s, i) < s.len() ==> s[nl_end(s, i)] == '\n',
        forall|j: int| i <= j < nl_end(s, i) ==> #[trigger] s[j] != '\n',
    decreases s.len() - i,
{
    if i < s.len() && s[i] != '\n' {
        lemma_nl_end(s, i + 1);
    }
}


// ---------------------------------------------------------------------------
// Numbers
// ---------------------------------------------------------------------------
/// The ASCII digit for `d < 10`.
pub open spec fn digit_char(d: nat) -> char {
    ((48 + d) as u32) as char
}

/// The lowercase hexadecimal digit for `d < 16`.
pub open spec fn hex_char(d: nat) -> char {
    if d < 10 {
        ((48 + d) as u32) as char
    } else {
        ((87 + d) as u32) as char
    }
}

/// Decimal rendering of `n` without leading zeros (`format!("{n}")`).
pub open spec fn dec_digits(n: nat) -> Seq<char>
    decreases n,
{
    if n < 10 {
        seq![digit_char(n)]
    } else {
        dec_digits(n / 10).push(digit_char(n % 10))
    }
}

/// Decimal rendering of `n`, left-padded with zeros to at least `w` digits (`{n:0w}`).
pub open spec fn dec_padded(n: nat, w: nat) -> Seq<char> {
    let d = dec_digits(n);
    if d.len() >= w {
        d
    } else {
        Seq::new((w - d.len()) as nat, |i: int| '0') + d
    }
}

/// The last `w` hexadecimal digits of `n`, most significant first.
pub open spec fn hex_digits(n: nat, w: nat) -> Seq<char>
    decreases w,
{
    if w == 0 {
        seq![]
    } else {
        hex_digits(n / 16, (w - 1) as nat).push(hex_char(n % 16))
    }
}

/// Appends the decimal rendering of `n`.
pub fn push_dec(v: &mut Vec<char>, n: usize)
    ensures
        final(v)@ == old(v)@ + dec_digits(n as nat),
    decreases n,
{
    if n >= 10 {
        push_dec(v, n / 10);
    }
    let d: u32 = (n % 10) as u32;
    let c = char_from_ascii(48 + d);
    v.push(c);
    proof {
        if n >= 10 {
            assert(old(v)@ + dec_digits(n as nat) =~= old(v)@ + dec_digits((n / 10) as nat) + seq![c]);
        } else {
            assert(old(v)@ + dec_digits(n as nat) =~= old(v)@ + seq![c]);
        }
    }
}

/// Appends the decimal rendering of the 64-bit `n`.
pub fn push_dec_u64(v: &mut Vec<char>, n: u64)
    ensures
        final(v)@ == old(v)@ + dec_digits(n as nat),
    decreases n,
{
    if n >= 10 {
        push_dec_u64(v, n / 10);
    }
    let d: u32 = (n % 10) as u32;
    let c = char_from_ascii(48 + d);
    v.push(c);
    proof {
        if n >= 10 {
            assert(old(v)@ + dec_digits(n as nat) =~= old(v)@ + dec_digits((n / 10) as nat) + seq![c]);
        } else {
            assert(old(v)@ + dec_digits(n as nat) =~= old(v)@ + seq![c]);
        }
    }
}

/// Appends the decimal rendering of `n`, zero-padded to `w` digits.
pub fn push_dec_padded(v: &mut Vec<char>, n: usize, w: usize)
    ensures
        final(v)@ == old(v)@ + dec_padded(n as nat, w as nat),
{
    let mut d: Vec<char> = Vec::new();
    push_dec(&mut d, n);
    assert(d@ =~= dec_digits(n as nat));
    if d.len() < w {
        let mut pad: Vec<char> = Vec::new();
        let k = w - d.len();
        let mut i: usize = 0;
        while i < k
            invariant
                i <= k,
                pad@ == Seq::new(i as nat, |j: int| '0'),
            decreases k - i,
        {
            pad.push('0');
            i += 1;
            assert(pad@ =~= Seq::new(i as nat, |j: int| '0'));
        }
        push_all(v, pad.as_slice());
    }
    push_all(v, d.as_slice());
    assert(final(v)@ =~= old(v)@ + dec_padded(n as nat, w as nat));
}

/// Appends the last `w` lowercase hexadecimal digits of `n`.
pub fn push_hex(v: &mut Vec<char>, n: u64, w: usize)
    ensures
        final(v)@ == old(v)@ + hex_digits(n as nat, w as nat),
    decreases w,
{
    if w == 0 {
        assert(old(v)@ + hex_digits(n as nat, 0) =~= old(v)@);
        return;
    }
    push_hex(v, n / 16, w - 1);
    let d: u32 = (n % 16) as u32;
    let c = if d < 10 {
        char_from_ascii(48 + d)
    } else {
        char_from_ascii(87 + d)
    };
    v.push(c);
    assert(final(v)@ =~= old(v)@ + hex_digits(n as nat, w as nat));
}

/// Value of a run of ASCII digits.
pub open spec fn dec_value(t: Seq<char>) -> nat
    decreases t.len(),
{
    if t.len() == 0 {
        0
    } else {
        dec_value(t.drop_last()) * 10 + ((t.last() as u32) - 48) as nat
    }
}

pub open spec fn all_digits(t: Seq<char>) -> bool {
    forall|i: int| 0 <= i < t.len() ==> is_digit(#[trigger] t[i])
}

/// `t` without one leading `'+'`.
pub open spec fn unsigned_body(t: Seq<char>) -> Seq<char> {
    if t.len() > 0 && t[0] == '+' {
        t.drop_first()
    } else {
        t
    }
}

/// What `str::parse` gives for an unsigned integer type whose largest value is `max`.
pub open spec fn parse_unsigned(t: Seq<char>, max: nat) -> Option<nat> {
    let b = unsigned_body(t);
    if b.len() > 0 && all_digits(b) && dec_value(b) <= max {
        Some(dec_value(b))
    } else {
        None
    }
}

/// What `str::parse::<i64>` gives.
pub open spec fn parse_i64(t: Seq<char>) -> Option<int> {
    if t.len() > 0 && t[0] == '-' {
        let b = t.drop_first();
        if b.len() > 0 && all_digits(b) && dec_value(b) <= 0x8000_0000_0000_0000 {
            Some(-(dec_value(b) as int))
        } else {
            None
        }
    } else {
        match parse_unsigned(t, 0x7fff_ffff_ffff_ffff) {
            Some(v) => Some(v as int),
            None => None,
        }
    }
}

pub proof fn lemma_dec_value_prefix(t: Seq<char>, i: int)
    requires
        0 <= i <= t.len(),
        all_digits(t),
    ensures
        dec_value(t.take(i)) <= dec_value(t),
    decreases t.len() - i,
{
    if i < t.len() {
        lemma_dec_value_prefix(t, i + 1);
        assert(t.take(i + 1).drop_last() =~= t.take(i));
        assert(is_digit(t[i]));
    } else {
        assert(t.take(i) =~= t);
    }
}

/// Value of the digits `s[lo..hi]` when they are all digits and at most `max`.
pub fn parse_digits(s: &[char], lo: usize, hi: usize, max: u64) -> (r: Option<u64>)
    requires
        lo <= hi <= s@.len(),
    ensures
        r matches Some(v) ==> {
            let t = s@.subrange(lo as int, hi as int);
            &&& t.len() > 0 && all_digits(t) && dec_value(t) <= max && v == dec_value(t)
        },
        r is None ==> !{
            let t = s@.subrange(lo as int, hi as int);
            &&& t.len() > 0 && all_digits(t) && dec_value(t) <= max
        },
{
    let ghost t = s@.subrange(lo as int, hi as int);
    if lo == hi {
        return None;
    }
    let mut val: u128 = 0;
    let mut i = lo;
    while i < hi
        invariant
            lo <= i <= hi <= s@.len(),
            t == s@.subrange(lo as int, hi as int),
            all_digits(t.take(i - lo)),
            val == dec_value(t.take(i - lo)),
            val <= max,
        decreases hi - i,
    {
        let c = s[i];
        if !char_is_digit(c) {
            assert(t[i - lo] == c);
            return None;
        }
        let d: u32 = (c as u32) - 48;
        assert(t.take(i - lo + 1).drop_last() =~= t.take(i - lo));
        assert(t.take(i - lo + 1).last() == c);
        val = val * 10 + (d as u128);
        i += 1;
        assert(all_digits(t.take(i - lo))) by {
            assert forall|j: int| 0 <= j < i - lo implies is_digit(#[trigger] t.take(i - lo)[j]) by {
                if j < i - lo - 1 {
                    assert(t.take(i - lo)[j] == t.take(i - lo - 1)[j]);
                }
            }
        }
        if val > max as u128 {
            proof {
                if all_digits(t) {
                    lemma_dec_value_prefix(t, i - lo);
                }
            }
            return None;
        }
    }
    assert(t.take(hi - lo) =~= t);
    Some(val as u64)
}

/// `str::parse` for an unsigned integer type with largest value `max`, on `s[lo..hi]`.
pub fn parse_unsigned_at(s: &[char], lo: usize, hi: usize, max: u64) -> (r: Option<u64>)
    requires
        lo <= hi <= s@.len(),
    ensures
        r matches Some(v) ==> parse_unsigned(s@.subrange(lo as int, hi as int), max as nat) == Some(
            v as nat,
        ),
        r is None ==> parse_unsigned(s@.subrange(lo as int, hi as int), max as nat) is None,
{
    let ghost t = s@.subrange(lo as int, hi as int);
    if hi > lo && s[lo] == '+' {
        assert(s@.subrange(lo + 1, hi as int) =~= t.drop_first());
        parse_digits(s, lo + 1, hi, max)
    } else {
        parse_digits(s, lo, hi, max)
    }
}

/// `str::parse::<i64>` on `s[lo..hi]`.
pub fn parse_i64_at(s: &[char], lo: usize, hi: usize) -> (r: Option<i64>)
    requires
        lo <= hi <= s@.len(),
    ensures
        r matches Some(v) ==> parse_i64(s@.subrange(lo as int, hi as int)) == Some(v as int),
        r is None ==> parse_i64(s@.subrange(lo as int, hi as int)) is None,
{
    let ghost t = s@.subrange(lo as int, hi as int);
    if hi > lo && s[lo] == '-' {
        assert(s@.subrange(lo + 1, hi as int) =~= t.drop_first());
        match parse_digits(s, lo + 1, hi, 0x8000_0000_0000_0000) {
            Some(v) => {
                if v == 0x8000_0000_0000_0000 {
                    Some(i64::MIN)
                } else {
                    Some(-(v as i64))
                }
            },
            None => None,
        }
    } else {
        match parse_unsigned_at(s, lo, hi, 0x7fff_ffff_ffff_ffff) {
            Some(v) => Some(v as i64),
            None => None,
        }
    }
}


// ---------------------------------------------------------------------------
// Matching runs of one character, splitting
// ---------------------------------------------------------------------------
/// Number of leading `c` characters of `t` (`str::trim_start_matches(c)`).
pub open spec fn lead_count(t: Seq<char>, c: char) -> nat
    decreases t.len(),
{
    if t.len() > 0 && t[0] == c {
        1 + lead_count(t.drop_first(), c)
    } else {
        0
    }
}

/// Number of trailing `c` characters of `t` (`str::trim_end_matches(c)`).
pub open spec fn trail_count(t: Seq<char>, c: char) -> nat
    decreases t.len(),
{
    if t.len() > 0 && t.last() == c {
        1 + trail_count(t.drop_last(), c)
    } else {
        0
    }
}

/// Start of the last occurrence of `p` in `t` (`str::rfind`).
pub open spec fn rfind(t: Seq<char>, p: Seq<char>) -> Option<int>
    decreases t.len(),
{
    if ends_with(t, p) {
        Some(t.len() - p.len())
    } else if t.len() == 0 {
        None
    } else {
        rfind(t.drop_last(), p)
    }
}

/// The pieces of `t` between occurrences of `c` (`str::split(c)`).
pub open spec fn split_char(t: Seq<char>, c: char) -> Seq<Seq<char>>
    decreases t.len(),
{
    match find_char(t, c) {
        None => seq![t],
        Some(k) => {
            if 0 <= k < t.len() {
                seq![t.take(k)] + split_char(t.skip(k + 1), c)
            } else {
                seq![t]
            }
        },
    }
}

pub proof fn lemma_lead_count(t: Seq<char>, c: char)
    ensures
        lead_count(t, c) <= t.len(),
        forall|i: int| 0 <= i < lead_count(t, c) ==> #[trigger] t[i] == c,
        lead_count(t, c) < t.len() ==> t[lead_count(t, c) as int] != c,
    decreases t.len(),
{
    if t.len() > 0 && t[0] == c {
        lemma_lead_count(t.drop_first(), c);
        assert forall|i: int| 0 <= i < lead_count(t, c) implies #[trigger] t[i] == c by {
            if i > 0 {
                assert(t[i] == t.drop_first()[i - 1]);
            }
        }
        if lead_count(t, c) < t.len() {
            assert(t[lead_count(t, c) as int] == t.drop_first()[lead_count(t.drop_first(), c) as int]);
        }
    }
}

pub proof fn lemma_lead_count_at(t: Seq<char>, c: char, k: int)
    requires
        0 <= k <= t.len(),
        forall|i: int| 0 <= i < k ==> #[trigger] t[i] == c,
        k == t.len() || t[k] != c,
    ensures
        lead_count(t, c) == k,
    decreases t.len(),
{
    if k > 0 {
        assert forall|i: int| 0 <= i < k - 1 implies #[trigger] t.drop_first()[i] == c by {
            assert(t.drop_first()[i] == t[i + 1]);
        }
        if k < t.len() {
            assert(t.drop_first()[k - 1] == t[k]);
        }
        lemma_lead_count_at(t.drop_first(), c, k - 1);
    }
}

pub proof fn lemma_trail_count_at(t: Seq<char>, c: char, k: int)
    requires
        0 <= k <= t.len(),
        forall|i: int| k <= i < t.len() ==> #[trigger] t[i] == c,
        k == 0 || t[k - 1] != c,
    ensures
        trail_count(t, c) == t.len() - k,
    decreases t.len(),
{
    if k < t.len() {
        let d = t.drop_last();
        assert forall|i: int| k <= i < d.len() implies #[trigger] d[i] == c by {
            assert(d[i] == t[i]);
        }
        if k > 0 {
            assert(d[k - 1] == t[k - 1]);
        }
        assert(t.last() == c);
        lemma_trail_count_at(d, c, k);
    }
}

/// Number of leading `c` in `s[lo..hi]`, as the index where they end.
pub fn skip_char(s: &[char], lo: usize, hi: usize, c: char) -> (k: usize)
    requires
        lo <= hi <= s@.len(),
    ensures
        lo <= k <= hi,
        k - lo == lead_count(s@.subrange(lo as int, hi as int), c),
{
    let mut k = lo;
    while k < hi && s[k] == c
        invariant
            lo <= k <= hi <= s@.len(),
            forall|i: int| lo <= i < k ==> #[trigger] s@[i] == c,
        decreases hi - k,
    {
        k += 1;
    }
    proof {
        let t = s@.subrange(lo as int, hi as int);
        assert forall|i: int| 0 <= i < k - lo implies #[trigger] t[i] == c by {
            assert(t[i] == s@[lo + i]);
        }
        if k < hi {
            assert(t[k - lo] == s@[k as int]);
        }
        lemma_lead_count_at(t, c, k - lo);
    }
    k
}

/// Start of the run of trailing `c` in `s[lo..hi]`.
pub fn rskip_char(s: &[char], lo: usize, hi: usize, c: char) -> (k: usize)
    requires
        lo <= hi <= s@.len(),
    ensures
        lo <= k <= hi,
        hi - k == trail_count(s@.subrange(lo as int, hi as int), c),
{
    let mut k = hi;
    while k > lo && s[k - 1] == c
        invariant
            lo <= k <= hi <= s@.len(),
            forall|i: int| k <= i < hi ==> #[trigger] s@[i] == c,
        decreases k - lo,
    {
        k -= 1;
    }
    proof {
        let t = s@.subrange(lo as int, hi as int);
        assert forall|i: int| k - lo <= i < t.len() implies #[trigger] t[i] == c by {
            assert(t[i] == s@[lo + i]);
        }
        if k > lo {
            assert(t[k - lo - 1] == s@[k - 1]);
        }
        lemma_trail_count_at(t, c, k - lo);
    }
    k
}

/// Whether `s[lo..hi]` ends with `p`.
pub fn ends_with_at(s: &[char], lo: usize, hi: usize, p: &[char]) -> (b: bool)
    requires
        lo <= hi <= s@.len(),
    ensures
        b == ends_with(s@.subrange(lo as int, hi as int), p@),
{
    if p.len() > hi - lo {
        return false;
    }
    let b = eq_at(s, hi - p.len(), hi, p);
    assert(s@.subrange((hi - p@.len()) as int, hi as int) =~= s@.subrange(lo as int, hi as int).skip(
        (hi - lo) - p@.len(),
    ));
    b
}

/// Last occurrence of `p` in `s[lo..hi]`, as an absolute index.
pub fn rfind_at(s: &[char], lo: usize, hi: usize, p: &[char]) -> (r: Option<usize>)
    requires
        lo <= hi <= s@.len(),
    ensures
        r matches Some(k) ==> lo <= k && k + p@.len() <= hi && rfind(
            s@.subrange(lo as int, hi as int),
            p@,
        ) == Some(k - lo),
        r is None ==> rfind(s@.subrange(lo as int, hi as int), p@) is None,
{
    let mut e = hi;
    loop
        invariant
            lo <= e <= hi <= s@.len(),
            rfind(s@.subrange(lo as int, hi as int), p@) == rfind(s@.subrange(lo as int, e as int), p@),
        decreases e - lo,
    {
        if ends_with_at(s, lo, e, p) {
            return Some(e - p.len());
        }
        if e == lo {
            return None;
        }
        assert(s@.subrange(lo as int, e - 1) =~= s@.subrange(lo as int, e as int).drop_last());
        e -= 1;
    }
}


/// The texts that the ranges `r` delimit in `s`.
pub open spec fn ranges_view(s: Seq<char>, r: Seq<(usize, usize)>) -> Seq<Seq<char>> {
    r.map_values(|p: (usize, usize)| s.subrange(p.0 as int, p.1 as int))
}

/// The ranges of the pieces of `s[lo..hi]` between occurrences of `c`.
pub fn split_ranges(s: &[char], lo: usize, hi: usize, c: char) -> (r: Vec<(usize, usize)>)
    requires
        lo <= hi <= s@.len(),
    ensures
        ranges_view(s@, r@) == split_char(s@.subrange(lo as int, hi as int), c),
        forall|i: int| 0 <= i < r@.len() ==> lo <= (#[trigger] r@[i]).0 <= r@[i].1 <= hi,
{
    let mut r: Vec<(usize, usize)> = Vec::new();
    let mut pos = lo;
    loop
        invariant
            lo <= pos <= hi <= s@.len(),
            ranges_view(s@, r@) + split_char(s@.subrange(pos as int, hi as int), c) == split_char(
                s@.subrange(lo as int, hi as int),
                c,
            ),
            forall|i: int| 0 <= i < r@.len() ==> lo <= (#[trigger] r@[i]).0 <= r@[i].1 <= hi,
        decreases hi - pos,
    {
        let ghost t = s@.subrange(pos as int, hi as int);
        match find_char_at(s, pos, hi, c) {
            None => {
                r.push((pos, hi));
                assert(ranges_view(s@, r@) =~= ranges_view(s@, r@.drop_last()) + seq![t]);
                return r;
            },
            Some(k) => {
                proof {
                    lemma_find_char_bound(t, c);
                }
                assert(t.take(k - pos) =~= s@.subrange(pos as int, k as int));
                assert(t.skip(k - pos + 1) =~= s@.subrange(k + 1, hi as int));
                r.push((pos, k));
                assert(ranges_view(s@, r@) =~= ranges_view(s@, r@.drop_last()) + seq![t.take(k - pos)]);
                pos = k + 1;
            },
        }
    }
}


/// The pieces of `t` between occurrences of the non-empty pattern `p` (`str::split(p)`).
pub open spec fn split_str(t: Seq<char>, p: Seq<char>) -> Seq<Seq<char>>
    decreases t.len(),
{
    match find(t, p) {
        None => seq![t],
        Some(k) => {
            if p.len() > 0 && 0 <= k && k + p.len() <= t.len() {
                seq![t.take(k)] + split_str(t.skip(k + p.len()), p)
            } else {
                seq![t]
            }
        },
    }
}

/// The ranges of the pieces of `s[lo..hi]` between occurrences of the non-empty pattern `p`.
pub fn split_str_ranges(s: &[char], lo: usize, hi: usize, p: &[char]) -> (r: Vec<(usize, usize)>)
    requires
        lo <= hi <= s@.len(),
        p@.len() > 0,
    ensures
        ranges_view(s@, r@) == split_str(s@.subrange(lo as int, hi as int), p@),
        forall|i: int| 0 <= i < r@.len() ==> lo <= (#[trigger] r@[i]).0 <= r@[i].1 <= hi,
{
    let mut r: Vec<(usize, usize)> = Vec::new();
    let mut pos = lo;
    loop
        invariant
            lo <= pos <= hi <= s@.len(),
            p@.len() > 0,
            ranges_view(s@, r@) + split_str(s@.subrange(pos as int, hi as int), p@) == split_str(
                s@.subrange(lo as int, hi as int),
                p@,
            ),
            forall|i: int| 0 <= i < r@.len() ==> lo <= (#[trigger] r@[i]).0 <= r@[i].1 <= hi,
        decreases hi - pos,
    {
        let ghost t = s@.subrange(pos as int, hi as int);
        match find_at(s, pos, hi, p) {
            None => {
                r.push((pos, hi));
                assert(ranges_view(s@, r@) =~= ranges_view(s@, r@.drop_last()) + seq![t]);
                return r;
            },
            Some(k) => {
                let e = k + p.len();
                assert(t.take(k - pos) =~= s@.subrange(pos as int, k as int));
                assert(t.skip(k - pos + p@.len()) =~= s@.subrange(e as int, hi as int));
                r.push((pos, k));
                assert(ranges_view(s@, r@) =~= ranges_view(s@, r@.drop_last()) + seq![t.take(k - pos)]);
                pos = e;
            },
        }
    }
}

/// Index of the first whitespace character of `t`, or its length.
pub open spec fn ws_end(t: Seq<char>) -> int
    decreases t.len(),
{
    if t.len() == 0 {
        0
    } else if is_ws(t[0]) {
        0
    } else {
        1 + ws_end(t.drop_first())
    }
}

/// The first whitespace-separated word of `t` (`split_whitespace().next()`, or empty).
pub open spec fn first_word(t: Seq<char>) -> Seq<char> {
    let a = trim_start(t);
    a.take(ws_end(a))
}

pub proof fn lemma_ws_end(t: Seq<char>)
    ensures
        0 <= ws_end(t) <= t.len(),
        forall|i: int| 0 <= i < ws_end(t) ==> !is_ws(#[trigger] t[i]),
        ws_end(t) < t.len() ==> is_ws(t[ws_end(t)]),
    decreases t.len(),
{
    if t.len() > 0 && !is_ws(t[0]) {
        lemma_ws_end(t.drop_first());
        assert forall|i: int| 0 <= i < ws_end(t) implies !is_ws(#[trigger] t[i]) by {
            if i > 0 {
                assert(t[i] == t.drop_first()[i - 1]);
            }
        }
        if ws_end(t) < t.len() {
            assert(t[ws_end(t)] == t.drop_first()[ws_end(t.drop_first())]);
        }
    }
}

pub proof fn lemma_ws_end_at(t: Seq<char>, k: int)
    requires
        0 <= k <= t.len(),
        forall|i: int| 0 <= i < k ==> !is_ws(#[trigger] t[i]),
        k == t.len() || is_ws(t[k]),
    ensures
        ws_end(t) == k,
    decreases t.len(),
{
    if k > 0 {
        assert forall|i: int| 0 <= i < k - 1 implies !is_ws(#[trigger] t.drop_first()[i]) by {
            assert(t.drop_first()[i] == t[i + 1]);
        }
        if k < t.len() {
            assert(t.drop_first()[k - 1] == t[k]);
        }
        lemma_ws_end_at(t.drop_first(), k - 1);
    }
}

/// The range of the first whitespace-separated word of `s[lo..hi]`.
pub fn first_word_range(s: &[char], lo: usize, hi: usize) -> (r: (usize, usize))
    requires
        lo <= hi <= s@.len(),
    ensures
        lo <= r.0 <= r.1 <= hi,
        s@.subrange(r.0 as int, r.1 as int) == first_word(s@.subrange(lo as int, hi as int)),
        r.0 - lo == lead_ws(s@.subrange(lo as int, hi as int)),
        s@.subrange(r.0 as int, hi as int) == trim_start(s@.subrange(lo as int, hi as int)),
        r.1 - r.0 == ws_end(trim_start(s@.subrange(lo as int, hi as int))),
{
    let a = skip_ws(s, lo, hi);
    let mut k = a;
    while k < hi && !char_is_ws(s[k])
        invariant
            a <= k <= hi <= s@.len(),
            forall|i: int| a <= i < k ==> !is_ws(#[trigger] s@[i]),
        decreases hi - k,
    {
        k += 1;
    }
    proof {
        let u = s@.subrange(a as int, hi as int);
        assert forall|i: int| 0 <= i < k - a implies !is_ws(#[trigger] u[i]) by {
            assert(u[i] == s@[a + i]);
        }
        if k < hi {
            assert(u[k - a] == s@[k as int]);
        }
        lemma_ws_end_at(u, k - a);
        assert(s@.subrange(a as int, k as int) =~= u.take(k - a));
    }
    (a, k)
}


/// The whitespace-separated words of `t` (`str::split_whitespace`).
pub open spec fn ws_tokens(t: Seq<char>) -> Seq<Seq<char>>
    decreases t.len(),
{
    let a = trim_start(t);
    if a.len() == 0 {
        Seq::empty()
    } else {
        let w = ws_end(a);
        proof {
            lemma_lead_ws_bound(t);
            lemma_ws_end(a);
        }
        if 0 < w <= a.len() && a.len() <= t.len() {
            seq![a.take(w)] + ws_tokens(a.skip(w))
        } else {
            Seq::empty()
        }
    }
}

/// The ranges of the whitespace-separated words of `s[lo..hi]`.
pub fn ws_token_ranges(s: &[char], lo: usize, hi: usize) -> (r: Vec<(usize, usize)>)
    requires
        lo <= hi <= s@.len(),
    ensures
        ranges_view(s@, r@) == ws_tokens(s@.subrange(lo as int, hi as int)),
        forall|i: int| 0 <= i < r@.len() ==> lo <= (#[trigger] r@[i]).0 <= r@[i].1 <= hi,
{
    let mut r: Vec<(usize, usize)> = Vec::new();
    let mut pos = lo;
    loop
        invariant
            lo <= pos <= hi <= s@.len(),
            ranges_view(s@, r@) + ws_tokens(s@.subrange(pos as int, hi as int)) == ws_tokens(
                s@.subrange(lo as int, hi as int),
            ),
            forall|i: int| 0 <= i < r@.len() ==> lo <= (#[trigger] r@[i]).0 <= r@[i].1 <= hi,
        decreases hi - pos,
    {
        let (a, k) = first_word_range(s, pos, hi);
        let ghost t = s@.subrange(pos as int, hi as int);
        proof {
            lemma_lead_ws_bound(t);
        }
        if a == hi {
            assert(trim_start(t).len() == 0);
            assert(ranges_view(s@, r@) + ws_tokens(t) =~= ranges_view(s@, r@));
            return r;
        }
        proof {
            let u = trim_start(t);
            lemma_ws_end(u);
            assert(u =~= s@.subrange(a as int, hi as int));
            assert(u.take(ws_end(u)) =~= s@.subrange(a as int, k as int));
            assert(u.skip(ws_end(u)) =~= s@.subrange(k as int, hi as int));
            assert(!is_ws(u[0]));
        }
        r.push((a, k));
        assert(ranges_view(s@, r@) =~= ranges_view(s@, r@.drop_last()).push(s@.subrange(a as int, k as int)));
        pos = k;
    }
}


pub proof fn lemma_split_char_len(t: Seq<char>, c: char)
    ensures
        split_char(t, c).len() >= 1,
    decreases t.len(),
{
    lemma_find_char_bound(t, c);
    if let Some(k) = find_char(t, c) {
        lemma_split_char_len(t.skip(k + 1), c);
    }
}


/// Searching for a one-character pattern is searching for the character.
pub proof fn lemma_find_single(t: Seq<char>, c: char)
    ensures
        find(t, seq![c]) == find_char(t, c),
    decreases t.len(),
{
    if t.len() > 0 {
        assert(starts_with(t, seq![c]) <==> t[0] == c) by {
            if t[0] == c {
                assert(t.take(1) =~= seq![c]);
            }
            if starts_with(t, seq![c]) {
                assert(t.take(1)[0] == t[0]);
            }
        }
        lemma_find_single(t.drop_first(), c);
    } else {
        assert(!starts_with(t, seq![c]));
    }
}

} // verus!
