//! Heading lines: `STARS KEYWORD PRIORITY TITLE TAGS`.
use vstd::prelude::*;
use crate::text::{
    char_is_ascii_alpha, copy_range, eq_at, ends_with, find_char, find_char_at, is_ascii_alpha,
    lead_count, lemma_find_char_bound, ranges_view, rfind, rfind_at, rskip_char, rskip_ws,
    skip_char, skip_ws, split_char, split_ranges, str_chars, string_of, trail_count, trim,
    trim_end, trim_range, trim_start,
};
use crate::unicode::{char_is_alnum, is_alnum};
use crate::props::PropMap;
use crate::text::{eq_str, ws_token_ranges, ws_tokens};

verus! {

/// The parts of a heading line.
#[derive(Debug, PartialEq)]
pub struct HeadingParts {
    /// Number of leading stars (1 = top level).
    pub level: usize,
    /// TODO keyword, when the first word is one.
    pub keyword: Option<String>,
    /// Priority letter of a `[#X]` cookie.
    pub priority: Option<char>,
    /// Title, with keyword, priority and tags removed.
    pub title: String,
    /// Tags, without the surrounding colons.
    pub tags: Vec<String>,
}

/// The parts of a heading line, as sequences.
pub struct HeadingView {
    pub level: nat,
    pub keyword: Option<Seq<char>>,
    pub priority: Option<char>,
    pub title: Seq<char>,
    pub tags: Seq<Seq<char>>,
}

impl HeadingParts {
    pub open spec fn view_parts(&self) -> HeadingView {
        HeadingView {
            level: self.level as nat,
            keyword: match self.keyword {
                Some(k) => Some(k@),
                None => None,
            },
            priority: self.priority,
            title: self.title@,
            tags: self.tags@.map_values(|t: String| t@),
        }
    }
}

/// The TODO keywords known when a file sets none.
pub open spec fn default_keywords() -> Seq<Seq<char>> {
    seq![
        "TODO"@,
        "DONE"@,
        "NEXT"@,
        "WAITING"@,
        "HOLD"@,
        "CANCELLED"@,
        "CANCELED"@,
        "STARTED"@,
        "DELEGATED"@,
        "REVIEW"@,
        "DRAFT"@,
        "PUBLISHED"@,
    ]
}

/// The default TODO keywords.
pub fn default_keyword_list() -> (v: Vec<Vec<char>>)
    ensures
        v@.map_values(|w: Vec<char>| w@) == default_keywords(),
{
    let mut v: Vec<Vec<char>> = Vec::new();
    v.push(str_chars("TODO"));
    v.push(str_chars("DONE"));
    v.push(str_chars("NEXT"));
    v.push(str_chars("WAITING"));
    v.push(str_chars("HOLD"));
    v.push(str_chars("CANCELLED"));
    v.push(str_chars("CANCELED"));
    v.push(str_chars("STARTED"));
    v.push(str_chars("DELEGATED"));
    v.push(str_chars("REVIEW"));
    v.push(str_chars("DRAFT"));
    v.push(str_chars("PUBLISHED"));
    assert(v@.map_values(|w: Vec<char>| w@) =~= default_keywords());
    v
}

/// Number of stars of a heading line: stars at column 0 followed by a space or the end.
pub open spec fn heading_level_of(line: Seq<char>) -> Option<nat> {
    let n = lead_count(line, '*');
    if n > 0 && (n == line.len() || line[n as int] == ' ') {
        Some(n)
    } else {
        None
    }
}

/// A tag: non-empty, of alphanumeric characters, `_` and `@`.
pub open spec fn valid_tag(t: Seq<char>) -> bool {
    t.len() > 0 && forall|i: int|
        0 <= i < t.len() ==> is_alnum(#[trigger] t[i]) || t[i] == '_' || t[i] == '@'
}

/// The tags at the end of a heading text: the start of the ` :` before them in
/// the right-trimmed text, and the tags.
pub open spec fn tag_split(text: Seq<char>) -> Option<(int, Seq<Seq<char>>)> {
    let trimmed = trim_end(text);
    if !ends_with(trimmed, seq![':']) {
        None
    } else {
        match rfind(trimmed, seq![' ', ':']) {
            None => None,
            Some(ts) => {
                let tag_str = trimmed.skip(ts + 1);
                let inner0 = tag_str.skip(lead_count(tag_str, ':') as int);
                let inner = inner0.take(inner0.len() - trail_count(inner0, ':'));
                let parts = split_char(inner, ':');
                if inner.len() > 0 && forall|i: int| 0 <= i < parts.len() ==> valid_tag(#[trigger] parts[i]) {
                    Some((ts, parts))
                } else {
                    None
                }
            },
        }
    }
}

/// Whether `w` is one of the words `ws`.
pub open spec fn is_one_of(ws: Seq<Seq<char>>, w: Seq<char>) -> bool {
    exists|i: int| 0 <= i < ws.len() && ws[i] == w
}

/// The heading text after the TODO keyword, and the keyword.
pub open spec fn keyword_split(text: Seq<char>, kws: Seq<Seq<char>>) -> (Seq<char>, Option<Seq<char>>) {
    let fwe = match find_char(text, ' ') {
        Some(k) => k,
        None => text.len() as int,
    };
    let first = text.take(fwe);
    if is_one_of(kws, first) {
        (if fwe < text.len() { trim_start(text.skip(fwe)) } else { Seq::empty() }, Some(first))
    } else {
        (text, None)
    }
}

/// The heading text after a `[#X]` priority cookie, and the priority letter.
pub open spec fn priority_split(text: Seq<char>) -> (Seq<char>, Option<char>) {
    if text.len() >= 4 && text[0] == '[' && text[1] == '#' && text[3] == ']' && is_ascii_alpha(text[2]) {
        (if text.len() > 4 { trim_start(text.skip(4)) } else { Seq::empty() }, Some(text[2]))
    } else {
        (text, None)
    }
}

/// The parts of the heading line `line`, with `kws` as the TODO keywords.
pub open spec fn parse_heading_spec(line: Seq<char>, kws: Seq<Seq<char>>) -> Option<HeadingView> {
    match heading_level_of(line) {
        None => None,
        Some(level) => {
            let rest = trim_start(line.skip(level as int));
            let (rest_no_tags, tags) = match tag_split(rest) {
                Some((ts, parts)) => (trim_end(rest).take(ts), parts),
                None => (rest, Seq::empty()),
            };
            let (r2, keyword) = keyword_split(trim_end(rest_no_tags), kws);
            let (r3, priority) = priority_split(r2);
            Some(HeadingView { level, keyword, priority, title: trim(r3), tags })
        },
    }
}

/// Heading level of `s[lo..hi]`.
pub fn heading_level_at(s: &[char], lo: usize, hi: usize) -> (r: Option<usize>)
    requires
        lo <= hi <= s@.len(),
    ensures
        r matches Some(n) ==> heading_level_of(s@.subrange(lo as int, hi as int)) == Some(n as nat)
            && lo + n <= hi,
        r is None ==> heading_level_of(s@.subrange(lo as int, hi as int)) is None,
{
    let k = skip_char(s, lo, hi, '*');
    let n = k - lo;
    let ghost t = s@.subrange(lo as int, hi as int);
    if k < hi {
        assert(t[n as int] == s@[k as int]);
    }
    if n > 0 && (k == hi || s[k] == ' ') {
        Some(n)
    } else {
        None
    }
}

/// The number of stars of a heading line, or `None` when it is not a heading.
pub fn heading_level(line: &str) -> (r: Option<usize>)
    ensures
        r matches Some(n) ==> heading_level_of(line@) == Some(n as nat),
        r is None ==> heading_level_of(line@) is None,
{
    let s = str_chars(line);
    assert(s@.subrange(0, s@.len() as int) =~= s@);
    heading_level_at(s.as_slice(), 0, s.len())
}

/// Whether the line is a heading.
pub fn is_heading(line: &str) -> (b: bool)
    ensures
        b == heading_level_of(line@) is Some,
{
    heading_level(line).is_some()
}

/// Whether `w` is one of `ws`.
pub fn word_is_one_of(ws: &[Vec<char>], s: &[char], lo: usize, hi: usize) -> (b: bool)
    requires
        lo <= hi <= s@.len(),
    ensures
        b == is_one_of(ws@.map_values(|w: Vec<char>| w@), s@.subrange(lo as int, hi as int)),
{
    let ghost wv = ws@.map_values(|w: Vec<char>| w@);
    let mut i: usize = 0;
    while i < ws.len()
        invariant
            i <= ws@.len(),
            lo <= hi <= s@.len(),
            wv == ws@.map_values(|w: Vec<char>| w@),
            forall|j: int| 0 <= j < i ==> wv[j] != s@.subrange(lo as int, hi as int),
        decreases ws.len() - i,
    {
        if eq_at(s, lo, hi, ws[i].as_slice()) {
            assert(wv[i as int] == s@.subrange(lo as int, hi as int));
            return true;
        }
        i += 1;
    }
    false
}

/// Whether every character of `s[lo..hi]` may stand in a tag, and there is one.
fn tag_is_valid(s: &[char], lo: usize, hi: usize) -> (b: bool)
    requires
        lo <= hi <= s@.len(),
    ensures
        b == valid_tag(s@.subrange(lo as int, hi as int)),
{
    let ghost t = s@.subrange(lo as int, hi as int);
    if lo == hi {
        return false;
    }
    let mut i = lo;
    while i < hi
        invariant
            lo <= i <= hi <= s@.len(),
            t == s@.subrange(lo as int, hi as int),
            forall|j: int| 0 <= j < i - lo ==> is_alnum(#[trigger] t[j]) || t[j] == '_' || t[j] == '@',
        decreases hi - i,
    {
        let c = s[i];
        assert(t[i - lo] == c);
        if !(char_is_alnum(c) || c == '_' || c == '@') {
            return false;
        }
        i += 1;
    }
    true
}

/// The tag split of `s[lo..hi]`: the absolute start of ` :` and the ranges of the tags.
#[verifier::loop_isolation(false)]
fn tag_split_at(s: &[char], lo: usize, hi: usize) -> (r: Option<(usize, Vec<(usize, usize)>)>)
    requires
        lo <= hi <= s@.len(),
    ensures
        r is None ==> tag_split(s@.subrange(lo as int, hi as int)) is None,
        r matches Some((ts, rs)) ==> {
            &&& lo <= ts <= hi
            &&& tag_split(s@.subrange(lo as int, hi as int)) == Some(
                (ts - lo, ranges_view(s@, rs@)),
            )
            &&& s@.subrange(lo as int, ts as int) == trim_end(s@.subrange(lo as int, hi as int)).take(ts - lo)
            &&& forall|j: int| 0 <= j < rs@.len() ==> lo <= (#[trigger] rs@[j]).0 <= rs@[j].1 <= hi
        },
{
    let ghost text = s@.subrange(lo as int, hi as int);
    let b = rskip_ws(s, lo, hi);
    let ghost trimmed = s@.subrange(lo as int, b as int);
    if !(b > lo && s[b - 1] == ':') {
        proof {
            if trimmed.len() > 0 {
                assert(trimmed.last() == s@[b - 1]);
                assert(trimmed.skip(trimmed.len() - 1) =~= seq![trimmed.last()]);
                assert(trimmed.skip(trimmed.len() - 1)[0] == trimmed.last());
            }
        }
        assert(!ends_with(trimmed, seq![':']));
        return None;
    }
    assert(trimmed.skip(trimmed.len() - 1) =~= seq![':']);
    let pat: Vec<char> = vec![' ', ':'];
    assert(pat@ =~= seq![' ', ':']);
    match rfind_at(s, lo, b, pat.as_slice()) {
        None => None,
        Some(ts) => {
            assert(s@.subrange(lo as int, ts as int) =~= trimmed.take(ts - lo));
            let c0 = skip_char(s, ts + 1, b, ':');
            let c1 = rskip_char(s, c0, b, ':');
            assert(s@.subrange(ts + 1, b as int) =~= trimmed.skip(ts - lo + 1));
            assert(s@.subrange(c0 as int, b as int) =~= trimmed.skip(ts - lo + 1).skip(
                lead_count(trimmed.skip(ts - lo + 1), ':') as int,
            ));
            let ghost inner0 = s@.subrange(c0 as int, b as int);
            assert(s@.subrange(c0 as int, c1 as int) =~= inner0.take(inner0.len() - trail_count(inner0, ':')));
            if c1 == c0 {
                return None;
            }
            let parts = split_ranges(s, c0, c1, ':');
            let ghost pv = ranges_view(s@, parts@);
            let mut i: usize = 0;
            while i < parts.len()
                invariant
                    i <= parts@.len(),
                    pv == ranges_view(s@, parts@),
                    c0 <= c1 <= s@.len(),
                    forall|j: int| 0 <= j < parts@.len() ==> c0 <= (#[trigger] parts@[j]).0 <= parts@[j].1 <= c1,
                    forall|j: int| 0 <= j < i ==> valid_tag(#[trigger] pv[j]),
                decreases parts.len() - i,
            {
                let (a, e) = parts[i];
                if !tag_is_valid(s, a, e) {
                    proof {
                        let inner = s@.subrange(c0 as int, c1 as int);
                        assert(pv == split_char(inner, ':'));
                        assert(pv[i as int] == s@.subrange(a as int, e as int));
                        assert(!valid_tag(pv[i as int]));
                        let tag_str = trimmed.skip(ts - lo + 1);
                        let i0 = tag_str.skip(lead_count(tag_str, ':') as int);
                        assert(i0 == inner0);
                        assert(i0.take(i0.len() - trail_count(i0, ':')) == inner);
                        assert(!(forall|j: int| 0 <= j < pv.len() ==> valid_tag(#[trigger] pv[j])));
                        assert(rfind(trimmed, seq![' ', ':']) == Some(ts - lo));
                        assert(trim_end(text) == trimmed);
                    }
                    return None;
                }
                i += 1;
            }
            Some((ts, parts))
        },
    }
}

/// The tags of the heading text `s[a..hi]` and the end of the text before them.
fn tags_step(s: &[char], a: usize, hi: usize) -> (r: (usize, Vec<String>))
    requires
        a <= hi <= s@.len(),
    ensures
        a <= r.0 <= hi,
        ({
            let rest = s@.subrange(a as int, hi as int);
            let (rest_no_tags, tags) = match tag_split(rest) {
                Some((ts, parts)) => (trim_end(rest).take(ts), parts),
                None => (rest, Seq::empty()),
            };
            rest_no_tags == s@.subrange(a as int, r.0 as int) && tags == r.1@.map_values(|t: String| t@)
        }),
{
    let ghost rest = s@.subrange(a as int, hi as int);
    let mut tags: Vec<String> = Vec::new();
    match tag_split_at(s, a, hi) {
        Some((ts, rs)) => {
            let mut i: usize = 0;
            while i < rs.len()
                invariant
                    i <= rs@.len(),
                    a <= hi <= s@.len(),
                    forall|j: int| 0 <= j < rs@.len() ==> a <= (#[trigger] rs@[j]).0 <= rs@[j].1 <= hi,
                    tags@.map_values(|t: String| t@) == ranges_view(s@, rs@).take(i as int),
                decreases rs.len() - i,
            {
                let (x, y) = rs[i];
                let t = string_of(s, x, y);
                let ghost before = tags@.map_values(|t: String| t@);
                tags.push(t);
                assert(tags@.map_values(|t: String| t@) =~= before.push(s@.subrange(x as int, y as int)));
                assert(ranges_view(s@, rs@).take(i + 1) =~= ranges_view(s@, rs@).take(i as int).push(s@.subrange(x as int, y as int)));
                i += 1;
            }
            assert(ranges_view(s@, rs@).take(rs@.len() as int) =~= ranges_view(s@, rs@));
            (ts, tags)
        },
        None => {
            assert(tags@.map_values(|t: String| t@) =~= Seq::<Seq<char>>::empty());
            (hi, tags)
        },
    }
}

/// The TODO keyword at the start of `s[a..e]` and where the text after it starts.
fn keyword_step(s: &[char], a: usize, e: usize, kws: &[Vec<char>]) -> (r: (usize, Option<String>))
    requires
        a <= e <= s@.len(),
    ensures
        a <= r.0 <= e,
        keyword_split(s@.subrange(a as int, e as int), kws@.map_values(|w: Vec<char>| w@)) == (
            s@.subrange(r.0 as int, e as int),
            match r.1 {
                Some(k) => Some(k@),
                None => None,
            },
        ),
{
    let ghost r1 = s@.subrange(a as int, e as int);
    let fwe = match find_char_at(s, a, e, ' ') {
        Some(k) => k,
        None => e,
    };
    proof {
        lemma_find_char_bound(r1, ' ');
    }
    assert(s@.subrange(a as int, fwe as int) =~= r1.take(fwe - a));
    if word_is_one_of(kws, s, a, fwe) {
        let keyword = Some(string_of(s, a, fwe));
        if fwe < e {
            let a2 = skip_ws(s, fwe, e);
            assert(s@.subrange(fwe as int, e as int) =~= r1.skip(fwe - a));
            (a2, keyword)
        } else {
            assert(s@.subrange(e as int, e as int) =~= Seq::<char>::empty());
            (e, keyword)
        }
    } else {
        (a, None)
    }
}

/// The priority cookie at the start of `s[a..e]` and where the text after it starts.
fn priority_step(s: &[char], a: usize, e: usize) -> (r: (usize, Option<char>))
    requires
        a <= e <= s@.len(),
    ensures
        a <= r.0 <= e,
        priority_split(s@.subrange(a as int, e as int)) == (s@.subrange(r.0 as int, e as int), r.1),
{
    let ghost r2 = s@.subrange(a as int, e as int);
    if e - a >= 4 {
        assert(r2[0] == s@[a as int] && r2[1] == s@[a + 1] && r2[2] == s@[a + 2] && r2[3] == s@[a + 3]);
    }
    if e - a >= 4 && s[a] == '[' && s[a + 1] == '#' && s[a + 3] == ']' && char_is_ascii_alpha(s[a + 2]) {
        if e - a > 4 {
            let a3 = skip_ws(s, a + 4, e);
            assert(s@.subrange(a + 4, e as int) =~= r2.skip(4));
            (a3, Some(s[a + 2]))
        } else {
            assert(s@.subrange(e as int, e as int) =~= Seq::<char>::empty());
            (e, Some(s[a + 2]))
        }
    } else {
        (a, None)
    }
}

/// The parts of the heading line `s[lo..hi]`, with `kws` as the TODO keywords.
pub fn parse_heading_at(s: &[char], lo: usize, hi: usize, kws: &[Vec<char>]) -> (r: Option<HeadingParts>)
    requires
        lo <= hi <= s@.len(),
    ensures
        r is None ==> parse_heading_spec(s@.subrange(lo as int, hi as int), kws@.map_values(|w: Vec<char>| w@)) is None,
        r matches Some(p) ==> parse_heading_spec(s@.subrange(lo as int, hi as int), kws@.map_values(|w: Vec<char>| w@))
            == Some(p.view_parts()),
{
    let ghost line = s@.subrange(lo as int, hi as int);
    let level = match heading_level_at(s, lo, hi) {
        None => return None,
        Some(n) => n,
    };
    let p = lo + level;
    let a = skip_ws(s, p, hi);
    assert(s@.subrange(p as int, hi as int) =~= line.skip(level as int));
    let (e, tags) = tags_step(s, a, hi);
    let e2 = rskip_ws(s, a, e);
    let (a2, keyword) = keyword_step(s, a, e2, kws);
    let (a3, priority) = priority_step(s, a2, e2);
    let (t0, t1) = trim_range(s, a3, e2);
    let title = string_of(s, t0, t1);
    Some(HeadingParts { level, keyword, priority, title, tags })
}

/// The parts of a heading line, with `keywords` as the TODO keywords.
pub fn parse_heading_with_keywords(line: &str, keywords: &[Vec<char>]) -> (r: Option<HeadingParts>)
    ensures
        r is None ==> parse_heading_spec(line@, keywords@.map_values(|w: Vec<char>| w@)) is None,
        r matches Some(p) ==> parse_heading_spec(line@, keywords@.map_values(|w: Vec<char>| w@)) == Some(p.view_parts()),
{
    let s = str_chars(line);
    assert(s@.subrange(0, s@.len() as int) =~= s@);
    parse_heading_at(s.as_slice(), 0, s.len(), keywords)
}

/// The parts of a heading line, with the default TODO keywords.
pub fn parse_heading(line: &str) -> (r: Option<HeadingParts>)
    ensures
        r is None ==> parse_heading_spec(line@, default_keywords()) is None,
        r matches Some(p) ==> parse_heading_spec(line@, default_keywords()) == Some(p.view_parts()),
{
    let kws = default_keyword_list();
    parse_heading_with_keywords(line, kws.as_slice())
}


// ---------------------------------------------------------------------------
// TODO keyword and priority settings of a file
// ---------------------------------------------------------------------------
/// The TODO keywords of a file: the open states and the done states.
#[derive(Debug, Clone)]
pub struct TodoKeywords {
    pub todo: Vec<String>,
    pub done: Vec<String>,
}

pub open spec fn strings_view(v: Seq<String>) -> Seq<Seq<char>> {
    v.map_values(|s: String| s@)
}

pub open spec fn default_todo() -> Seq<Seq<char>> {
    seq!["TODO"@, "NEXT"@, "WAITING"@, "HOLD"@, "STARTED"@, "DELEGATED"@, "REVIEW"@, "DRAFT"@]
}

pub open spec fn default_done() -> Seq<Seq<char>> {
    seq!["DONE"@, "CANCELLED"@, "CANCELED"@, "PUBLISHED"@]
}

/// A word of a TODO setting without its fast-access key, as `TODO(t)` gives `TODO`.
pub open spec fn strip_fast_key(w: Seq<char>) -> Seq<char> {
    match find_char(w, '(') {
        Some(k) => w.take(k),
        None => w,
    }
}

/// Index of the first word `"|"`.
pub open spec fn bar_index(ws: Seq<Seq<char>>) -> Option<int>
    decreases ws.len(),
{
    if ws.len() == 0 {
        None
    } else if ws[0] == "|"@ {
        Some(0)
    } else {
        match bar_index(ws.drop_first()) {
            Some(i) => Some(i + 1),
            None => None,
        }
    }
}

/// The open and done states of a `#+TODO:` value: the words before and after
/// `|`, or, without `|`, all words but the last and the last.
pub open spec fn todo_setting(v: Seq<char>) -> (Seq<Seq<char>>, Seq<Seq<char>>) {
    let toks = ws_tokens(v);
    let words = toks.map_values(|w: Seq<char>| strip_fast_key(w));
    match bar_index(toks) {
        Some(b) => (words.take(b), words.skip(b + 1)),
        None => (words.drop_last(), seq![words.last()]),
    }
}

/// The value of the first of `#+TODO:`, `#+SEQ_TODO:` and `#+TYP_TODO:` that is set.
pub open spec fn todo_value(fk: PropMap) -> Option<Seq<char>> {
    if fk.get_spec("TODO"@) is Some {
        fk.get_spec("TODO"@)
    } else if fk.get_spec("SEQ_TODO"@) is Some {
        fk.get_spec("SEQ_TODO"@)
    } else {
        fk.get_spec("TYP_TODO"@)
    }
}

/// The TODO keywords that the file keywords `fk` set, or the defaults.
pub open spec fn keywords_spec(fk: PropMap) -> (Seq<Seq<char>>, Seq<Seq<char>>) {
    match todo_value(fk) {
        Some(v) => if ws_tokens(v).len() > 0 {
            todo_setting(v)
        } else {
            (default_todo(), default_done())
        },
        None => (default_todo(), default_done()),
    }
}

impl TodoKeywords {
    pub open spec fn view_kw(&self) -> (Seq<Seq<char>>, Seq<Seq<char>>) {
        (strings_view(self.todo@), strings_view(self.done@))
    }

    /// All keywords, open states first.
    pub open spec fn all_spec(&self) -> Seq<Seq<char>> {
        strings_view(self.todo@) + strings_view(self.done@)
    }

    /// Whether `kw` is a done state.
    pub fn is_done(&self, kw: &str) -> (b: bool)
        ensures
            b == is_one_of(strings_view(self.done@), kw@),
    {
        let k = str_chars(kw);
        let ks = k.as_slice();
        assert(ks@.subrange(0, ks@.len() as int) =~= ks@);
        let mut i: usize = 0;
        while i < self.done.len()
            invariant
                i <= self.done@.len(),
                ks@ == kw@,
                ks@.subrange(0, ks@.len() as int) == ks@,
                forall|j: int| 0 <= j < i ==> strings_view(self.done@)[j] != kw@,
            decreases self.done.len() - i,
        {
            assert(strings_view(self.done@)[i as int] == self.done@[i as int]@);
            if eq_str(ks, 0, ks.len(), self.done[i].as_str()) {
                assert(strings_view(self.done@)[i as int] == kw@);
                return true;
            }
            i += 1;
        }
        false
    }

    /// All keywords, open states first, as character vectors.
    pub fn all(&self) -> (v: Vec<Vec<char>>)
        ensures
            v@.map_values(|w: Vec<char>| w@) == self.all_spec(),
    {
        let mut v: Vec<Vec<char>> = Vec::new();
        let mut i: usize = 0;
        while i < self.todo.len()
            invariant
                i <= self.todo@.len(),
                v@.map_values(|w: Vec<char>| w@) == strings_view(self.todo@).take(i as int),
            decreases self.todo.len() - i,
        {
            let ghost before = v@.map_values(|w: Vec<char>| w@);
            v.push(str_chars(self.todo[i].as_str()));
            assert(v@.map_values(|w: Vec<char>| w@) =~= before.push(self.todo@[i as int]@));
            assert(strings_view(self.todo@).take(i + 1) =~= strings_view(self.todo@).take(i as int).push(self.todo@[i as int]@));
            i += 1;
        }
        let mut j: usize = 0;
        while j < self.done.len()
            invariant
                j <= self.done@.len(),
                v@.map_values(|w: Vec<char>| w@) == strings_view(self.todo@) + strings_view(self.done@).take(j as int),
            decreases self.done.len() - j,
        {
            let ghost before = v@.map_values(|w: Vec<char>| w@);
            v.push(str_chars(self.done[j].as_str()));
            assert(v@.map_values(|w: Vec<char>| w@) =~= before.push(self.done@[j as int]@));
            assert(strings_view(self.done@).take(j + 1) =~= strings_view(self.done@).take(j as int).push(self.done@[j as int]@));
            j += 1;
        }
        assert(strings_view(self.todo@).take(i as int) =~= strings_view(self.todo@));
        assert(strings_view(self.done@).take(j as int) =~= strings_view(self.done@));
        v
    }
}

impl Default for TodoKeywords {
    fn default() -> (k: Self)
        ensures
            k.view_kw() == (default_todo(), default_done()),
    {
        let todo = vec![
            "TODO".to_owned(),
            "NEXT".to_owned(),
            "WAITING".to_owned(),
            "HOLD".to_owned(),
            "STARTED".to_owned(),
            "DELEGATED".to_owned(),
            "REVIEW".to_owned(),
            "DRAFT".to_owned(),
        ];
        let done = vec!["DONE".to_owned(), "CANCELLED".to_owned(), "CANCELED".to_owned(), "PUBLISHED".to_owned()];
        let k = TodoKeywords { todo, done };
        assert(strings_view(k.todo@) =~= default_todo());
        assert(strings_view(k.done@) =~= default_done());
        k
    }
}

/// The TODO keywords of the value `v` of a `#+TODO:` setting that has a word.
fn parse_todo_setting(v: &[char]) -> (k: TodoKeywords)
    requires
        ws_tokens(v@).len() > 0,
    ensures
        k.view_kw() == todo_setting(v@),
{
    assert(v@.subrange(0, v@.len() as int) =~= v@);
    let toks = ws_token_ranges(v, 0, v.len());
    let ghost tv = ranges_view(v@, toks@);
    let ghost words = tv.map_values(|w: Seq<char>| strip_fast_key(w));
    let mut words_v: Vec<String> = Vec::new();
    let mut bar: Option<usize> = None;
    let mut i: usize = 0;
    while i < toks.len()
        invariant
            i <= toks@.len(),
            tv == ranges_view(v@, toks@),
            tv.len() > 0,
            words == tv.map_values(|w: Seq<char>| strip_fast_key(w)),
            forall|j: int| 0 <= j < toks@.len() ==> (#[trigger] toks@[j]).0 <= toks@[j].1 <= v@.len(),
            strings_view(words_v@) == words.take(i as int),
            bar matches Some(b) ==> b < i && bar_index(tv) == Some(b as int),
            bar is None ==> forall|j: int| 0 <= j < i ==> tv[j] != "|"@,
        decreases toks.len() - i,
    {
        let (a, e) = toks[i];
        assert(tv[i as int] == v@.subrange(a as int, e as int));
        if bar.is_none() && eq_str(v, a, e, "|") {
            bar = Some(i);
            proof {
                lemma_bar_index(tv, i as int);
            }
        }
        let cut = match find_char_at(v, a, e, '(') {
            Some(k) => k,
            None => e,
        };
        proof {
            lemma_find_char_bound(v@.subrange(a as int, e as int), '(');
        }
        assert(v@.subrange(a as int, cut as int) =~= strip_fast_key(tv[i as int]));
        let ghost before = strings_view(words_v@);
        words_v.push(string_of(v, a, cut));
        assert(strings_view(words_v@) =~= before.push(words[i as int]));
        assert(words.take(i + 1) =~= words.take(i as int).push(words[i as int]));
        i += 1;
    }
    assert(words.take(i as int) =~= words);
    match bar {
        Some(b) => {
            let mut todo: Vec<String> = Vec::new();
            let mut done: Vec<String> = Vec::new();
            let mut j: usize = 0;
            while j < words_v.len()
                invariant
                    j <= words_v@.len(),
                    b < words_v@.len(),
                    strings_view(todo@) == strings_view(words_v@).take(if j < b { j as int } else { b as int }),
                    strings_view(done@) == if j <= b { Seq::empty() } else { strings_view(words_v@).subrange(b + 1, j as int) },
                decreases words_v.len() - j,
            {
                let w = words_v[j].clone();
                let ghost bt = strings_view(todo@);
                let ghost bd = strings_view(done@);
                if j < b {
                    todo.push(w);
                    assert(strings_view(todo@) =~= bt.push(words_v@[j as int]@));
                    assert(strings_view(words_v@).take(j + 1) =~= strings_view(words_v@).take(j as int).push(words_v@[j as int]@));
                } else if j > b {
                    done.push(w);
                    assert(strings_view(done@) =~= bd.push(words_v@[j as int]@));
                    assert(strings_view(words_v@).subrange(b + 1, j + 1) =~= strings_view(words_v@).subrange(b + 1, j as int).push(words_v@[j as int]@));
                } else {
                    assert(strings_view(words_v@).subrange(b + 1, j + 1) =~= Seq::<Seq<char>>::empty());
                }
                j += 1;
            }
            assert(strings_view(words_v@).subrange(b + 1, j as int) =~= words.skip(b + 1));
            TodoKeywords { todo, done }
        },
        None => {
            proof {
                lemma_bar_none(tv);
            }
            let mut todo: Vec<String> = Vec::new();
            let n = words_v.len();
            let mut j: usize = 0;
            while j + 1 < n
                invariant
                    j + 1 <= n || j == 0,
                    n == words_v@.len(),
                    n > 0,
                    strings_view(todo@) == strings_view(words_v@).take(j as int),
                decreases n - j,
            {
                let ghost bt = strings_view(todo@);
                todo.push(words_v[j].clone());
                assert(strings_view(todo@) =~= bt.push(words_v@[j as int]@));
                assert(strings_view(words_v@).take(j + 1) =~= strings_view(words_v@).take(j as int).push(words_v@[j as int]@));
                j += 1;
            }
            let done = vec![words_v[n - 1].clone()];
            assert(strings_view(words_v@).take(j as int) =~= words.drop_last());
            assert(strings_view(done@) =~= seq![words.last()]);
            TodoKeywords { todo, done }
        },
    }
}

proof fn lemma_bar_index(ws: Seq<Seq<char>>, i: int)
    requires
        0 <= i < ws.len(),
        ws[i] == "|"@,
        forall|j: int| 0 <= j < i ==> ws[j] != "|"@,
    ensures
        bar_index(ws) == Some(i),
    decreases ws.len(),
{
    if i > 0 {
        assert forall|j: int| 0 <= j < i - 1 implies ws.drop_first()[j] != "|"@ by {
            assert(ws.drop_first()[j] == ws[j + 1]);
        }
        lemma_bar_index(ws.drop_first(), i - 1);
    }
}

proof fn lemma_bar_none(ws: Seq<Seq<char>>)
    requires
        forall|j: int| 0 <= j < ws.len() ==> ws[j] != "|"@,
    ensures
        bar_index(ws) is None,
    decreases ws.len(),
{
    if ws.len() > 0 {
        assert forall|j: int| 0 <= j < ws.len() - 1 implies ws.drop_first()[j] != "|"@ by {
            assert(ws.drop_first()[j] == ws[j + 1]);
        }
        lemma_bar_none(ws.drop_first());
    }
}

/// The TODO keywords that the file keywords set (`#+TODO:`, `#+SEQ_TODO:` or `#+TYP_TODO:`), or the defaults.
pub fn todo_keywords_from_file(fk: &PropMap) -> (k: TodoKeywords)
    ensures
        k.view_kw() == keywords_spec(*fk),
{
    let v = if let Some(v) = fk.get("TODO") {
        Some(v)
    } else if let Some(v) = fk.get("SEQ_TODO") {
        Some(v)
    } else {
        fk.get("TYP_TODO")
    };
    match v {
        Some(val) => {
            let c = str_chars(val.as_str());
            assert(c@.subrange(0, c@.len() as int) =~= c@);
            let toks = ws_token_ranges(c.as_slice(), 0, c.len());
            if toks.len() > 0 {
                parse_todo_setting(c.as_slice())
            } else {
                TodoKeywords::default()
            }
        },
        None => TodoKeywords::default(),
    }
}

/// The priority letters of a file: highest, lowest and default.
#[derive(Debug, Clone, Copy, PartialEq, Eq)]
pub struct PriorityRange {
    pub highest: char,
    pub lowest: char,
    pub default: char,
}

impl Default for PriorityRange {
    fn default() -> (p: Self)
        ensures
            p.highest == 'A' && p.lowest == 'C' && p.default == 'B',
    {
        PriorityRange { highest: 'A', lowest: 'C', default: 'B' }
    }
}

impl PriorityRange {
    /// Whether `c` lies between the highest and the lowest priority.
    pub fn is_valid(&self, c: char) -> (b: bool)
        ensures
            b == (self.highest <= c && c <= self.lowest),
    {
        self.highest <= c && c <= self.lowest
    }
}

/// The priority range that a `#+PRIORITIES:` value sets: its first three words
/// when each is one character, or the default.
pub open spec fn priority_spec(fk: PropMap) -> (char, char, char) {
    match fk.get_spec("PRIORITIES"@) {
        Some(v) => {
            let t = ws_tokens(v);
            if t.len() >= 3 && t[0].len() == 1 && t[1].len() == 1 && t[2].len() == 1 {
                (t[0][0], t[1][0], t[2][0])
            } else {
                ('A', 'C', 'B')
            }
        },
        None => ('A', 'C', 'B'),
    }
}

/// The priority range that the file keywords set.
pub fn priority_range_from_file(fk: &PropMap) -> (p: PriorityRange)
    ensures
        (p.highest, p.lowest, p.default) == priority_spec(*fk),
{
    match fk.get("PRIORITIES") {
        Some(val) => {
            let c = str_chars(val.as_str());
            let s = c.as_slice();
            assert(s@.subrange(0, s@.len() as int) =~= s@);
            let t = ws_token_ranges(s, 0, s.len());
            let ghost tv = ranges_view(s@, t@);
            if t.len() >= 3 && t[0].1 - t[0].0 == 1 && t[1].1 - t[1].0 == 1 && t[2].1 - t[2].0 == 1 {
                assert(tv[0] == s@.subrange(t@[0].0 as int, t@[0].1 as int));
                assert(tv[1] == s@.subrange(t@[1].0 as int, t@[1].1 as int));
                assert(tv[2] == s@.subrange(t@[2].0 as int, t@[2].1 as int));
                PriorityRange { highest: s[t[0].0], lowest: s[t[1].0], default: s[t[2].0] }
            } else {
                proof {
                    if t@.len() >= 3 {
                        assert(tv[0] == s@.subrange(t@[0].0 as int, t@[0].1 as int));
                        assert(tv[1] == s@.subrange(t@[1].0 as int, t@[1].1 as int));
                        assert(tv[2] == s@.subrange(t@[2].0 as int, t@[2].1 as int));
                    }
                }
                PriorityRange::default()
            }
        },
        None => PriorityRange::default(),
    }
}

} // verus!
