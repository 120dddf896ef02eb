//! The heading tree of an org document, built by one scan over its lines.
use vstd::prelude::*;
use crate::lines::{line_ranges, line_spans};
use crate::props::PropMap;
use crate::rules::heading::{
    HeadingParts,
    heading_level_at, heading_level_of, keywords_spec, parse_heading_at, parse_heading_spec,
    priority_range_from_file, priority_spec, strings_view, todo_keywords_from_file, HeadingView,
    PriorityRange, TodoKeywords,
};
use crate::rules::timestamp::{parse_timestamp_at, parse_timestamp_spec, OrgTimestamp, TsView};
use crate::source::SourceFile;
use crate::text::{
    eq_ignore_case, eq_ignore_case_str, find, find_at, find_char, find_char_at, find_str, is_ws,
    lead_count, lemma_find_bound, lemma_find_char_bound, parse_i64, parse_i64_at, rskip_char,
    skip_char, skip_ws, split_char, split_ranges, starts_with, starts_with_str, str_eq, str_chars,
    string_of, trail_count, trim, trim_range, trim_start, ranges_view, lemma_split_char_len,
};
use crate::unicode::{to_upper, upper_text};

verus! {

/// A parsed org document.
#[derive(Debug)]
pub struct OrgDocument {
    /// Path of the source file.
    pub file: String,
    /// The heading entries in document order.
    pub entries: Vec<OrgEntry>,
    /// Properties of the property drawer before the first heading.
    pub file_properties: PropMap,
    /// `#+KEY: value` keywords before the first heading, keys in upper case.
    pub file_keywords: PropMap,
    /// The TODO keywords of the file.
    pub todo_keywords: TodoKeywords,
    /// The priority range of the file.
    pub priority_range: PriorityRange,
    /// Tags of `#+FILETAGS:`, inherited by all entries.
    pub filetags: Vec<String>,
    /// Default properties of `#+PROPERTY:`.
    pub default_properties: PropMap,
}

/// A heading entry.
#[derive(Debug)]
pub struct OrgEntry {
    /// Heading level (1 = top level).
    pub level: usize,
    /// TODO keyword.
    pub keyword: Option<String>,
    /// Priority letter.
    pub priority: Option<char>,
    /// Title, with keyword, priority and tags removed.
    pub title: String,
    /// Local tags.
    pub tags: Vec<String>,
    /// Properties of the entry's property drawer.
    pub properties: PropMap,
    /// Planning timestamps.
    pub planning: Planning,
    /// Clock entries.
    pub clocks: Vec<ClockEntry>,
    /// 1-based line of the heading.
    pub heading_line: usize,
    /// Offset of the start of the heading line.
    pub heading_offset: usize,
    /// 1-based line where the entry's content ends (exclusive).
    pub content_end_line: usize,
    /// Index of the parent entry.
    pub parent: Option<usize>,
    /// Indices of the direct children.
    pub children: Vec<usize>,
    /// The heading line as written.
    pub raw_heading: String,
}

/// Planning timestamps of a heading.
#[derive(Debug)]
pub struct Planning {
    pub scheduled: Option<OrgTimestamp>,
    pub deadline: Option<OrgTimestamp>,
    pub closed: Option<OrgTimestamp>,
}

impl Default for Planning {
    fn default() -> (p: Self)
        ensures
            p.scheduled is None && p.deadline is None && p.closed is None,
    {
        Planning { scheduled: None, deadline: None, closed: None }
    }
}

/// A `CLOCK:` entry.
#[derive(Debug)]
pub struct ClockEntry {
    pub start: OrgTimestamp,
    /// End timestamp, `None` for a running clock.
    pub end: Option<OrgTimestamp>,
    /// Duration in minutes, from `=> HH:MM`.
    pub duration_minutes: Option<i64>,
    /// 1-based line of the `CLOCK:` line.
    pub line: usize,
}

// ---------------------------------------------------------------------------
// Line parsers
// ---------------------------------------------------------------------------
/// Whether the trimmed line is a planning line.
pub open spec fn planning_line(t: Seq<char>) -> bool {
    starts_with(t, "SCHEDULED:"@) || starts_with(t, "DEADLINE:"@) || starts_with(t, "CLOSED:"@)
}

fn is_planning_line_at(s: &[char], lo: usize, hi: usize) -> (b: bool)
    requires
        lo <= hi <= s@.len(),
    ensures
        b == planning_line(s@.subrange(lo as int, hi as int)),
{
    starts_with_str(s, lo, hi, "SCHEDULED:") || starts_with_str(s, lo, hi, "DEADLINE:") || starts_with_str(s, lo, hi, "CLOSED:")
}

/// The `#+KEY: value` line `t`: key in upper case and trimmed value.
pub open spec fn keyword_line(line: Seq<char>) -> Option<(Seq<char>, Seq<char>)> {
    let t = trim(line);
    if !starts_with(t, "#+"@) {
        None
    } else {
        let rest = t.skip(2);
        match find_char(rest, ':') {
            None => None,
            Some(c) => Some((upper_text(trim(rest.take(c))), trim(rest.skip(c + 1)))),
        }
    }
}

/// The keyword line `s[lo..hi]`.
pub fn keyword_line_at(s: &[char], lo: usize, hi: usize) -> (r: Option<(String, String)>)
    requires
        lo <= hi <= s@.len(),
    ensures
        r is None ==> keyword_line(s@.subrange(lo as int, hi as int)) is None,
        r matches Some((k, v)) ==> keyword_line(s@.subrange(lo as int, hi as int)) == Some((k@, v@)),
{
    proof {
        reveal_strlit("#+");
    }
    let (a, b) = trim_range(s, lo, hi);
    let ghost t = s@.subrange(a as int, b as int);
    if !starts_with_str(s, a, b, "#+") {
        return None;
    }
    assert(s@.subrange(a + 2, b as int) =~= t.skip(2));
    let c = match find_char_at(s, a + 2, b, ':') {
        None => return None,
        Some(c) => c,
    };
    proof {
        lemma_find_char_bound(t.skip(2), ':');
    }
    assert(s@.subrange(a + 2, c as int) =~= t.skip(2).take(c - (a + 2)));
    assert(s@.subrange(c + 1, b as int) =~= t.skip(2).skip(c - (a + 2) + 1));
    let (k0, k1) = trim_range(s, a + 2, c);
    let key = to_upper(&s[k0..k1]);
    assert(key@.subrange(0, key@.len() as int) =~= key@);
    let (v0, v1) = trim_range(s, c + 1, b);
    Some((string_of(key.as_slice(), 0, key.len()), string_of(s, v0, v1)))
}

/// Parses a `#+KEY: value` keyword line into its upper-cased key and its value.
pub fn parse_keyword_line(line: &str) -> (r: Option<(String, String)>)
    ensures
        r is None ==> keyword_line(line@) is None,
        r matches Some((k, v)) ==> keyword_line(line@) == Some((k@, v@)),
{
    let s = str_chars(line);
    assert(s@.subrange(0, s@.len() as int) =~= s@);
    keyword_line_at(s.as_slice(), 0, s.len())
}

/// The `:KEY: value` property line `t` (already trimmed).
pub open spec fn property_line(t: Seq<char>) -> Option<(Seq<char>, Seq<char>)> {
    if !starts_with(t, ":"@) {
        None
    } else {
        let rest = t.skip(1);
        match find_char(rest, ':') {
            None => None,
            Some(c) => if c == 0 {
                None
            } else {
                Some((rest.take(c), trim(rest.skip(c + 1))))
            },
        }
    }
}

/// The property line `s[lo..hi]` (already trimmed).
pub fn property_line_at(s: &[char], lo: usize, hi: usize) -> (r: Option<(String, String)>)
    requires
        lo <= hi <= s@.len(),
    ensures
        r is None ==> property_line(s@.subrange(lo as int, hi as int)) is None,
        r matches Some((k, v)) ==> property_line(s@.subrange(lo as int, hi as int)) == Some((k@, v@)),
{
    proof {
        reveal_strlit(":");
    }
    let ghost t = s@.subrange(lo as int, hi as int);
    if !starts_with_str(s, lo, hi, ":") {
        return None;
    }
    assert(s@.subrange(lo + 1, hi as int) =~= t.skip(1));
    let c = match find_char_at(s, lo + 1, hi, ':') {
        None => return None,
        Some(c) => c,
    };
    if c == lo + 1 {
        return None;
    }
    proof {
        lemma_find_char_bound(t.skip(1), ':');
    }
    assert(s@.subrange(lo + 1, c as int) =~= t.skip(1).take(c - (lo + 1)));
    assert(s@.subrange(c + 1, hi as int) =~= t.skip(1).skip(c - (lo + 1) + 1));
    let (v0, v1) = trim_range(s, c + 1, hi);
    Some((string_of(s, lo + 1, c), string_of(s, v0, v1)))
}

/// Parses a trimmed `:KEY: value` property line.
pub fn parse_property_line(trimmed: &str) -> (r: Option<(String, String)>)
    ensures
        r is None ==> property_line(trimmed@) is None,
        r matches Some((k, v)) ==> property_line(trimmed@) == Some((k@, v@)),
{
    let s = str_chars(trimmed);
    assert(s@.subrange(0, s@.len() as int) =~= s@);
    property_line_at(s.as_slice(), 0, s.len())
}

/// The minutes of a `=> HH:MM` duration.
pub open spec fn duration_spec(s: Seq<char>) -> Option<int> {
    let t = trim(s);
    if !starts_with(t, "=>"@) {
        None
    } else {
        let parts = split_char(trim(t.skip(2)), ':');
        if parts.len() != 2 {
            None
        } else {
            match (parse_i64(trim(parts[0])), parse_i64(trim(parts[1]))) {
                (Some(h), Some(m)) => if i64::MIN <= h * 60 + m <= i64::MAX && i64::MIN <= h * 60 <= i64::MAX {
                    Some(h * 60 + m)
                } else {
                    None
                },
                _ => None,
            }
        }
    }
}

/// The duration of `s[lo..hi]`.
fn duration_at(s: &[char], lo: usize, hi: usize) -> (r: Option<i64>)
    requires
        lo <= hi <= s@.len(),
    ensures
        r matches Some(v) ==> duration_spec(s@.subrange(lo as int, hi as int)) == Some(v as int),
        r is None ==> duration_spec(s@.subrange(lo as int, hi as int)) is None,
{
    proof {
        reveal_strlit("=>");
    }
    let (a, b) = trim_range(s, lo, hi);
    let ghost t = s@.subrange(a as int, b as int);
    if !starts_with_str(s, a, b, "=>") {
        return None;
    }
    assert(s@.subrange(a + 2, b as int) =~= t.skip(2));
    let (c0, c1) = trim_range(s, a + 2, b);
    let parts = split_ranges(s, c0, c1, ':');
    if parts.len() != 2 {
        return None;
    }
    let ghost pv = ranges_view(s@, parts@);
    assert(pv[0] == s@.subrange(parts@[0].0 as int, parts@[0].1 as int));
    assert(pv[1] == s@.subrange(parts@[1].0 as int, parts@[1].1 as int));
    let (h0, h1) = trim_range(s, parts[0].0, parts[0].1);
    let (m0, m1) = trim_range(s, parts[1].0, parts[1].1);
    let h = match parse_i64_at(s, h0, h1) {
        Some(v) => v,
        None => return None,
    };
    let m = match parse_i64_at(s, m0, m1) {
        Some(v) => v,
        None => return None,
    };
    let hm = match h.checked_mul(60) {
        Some(v) => v,
        None => return None,
    };
    match hm.checked_add(m) {
        Some(v) => Some(v),
        None => None,
    }
}

/// Parses a duration such as ` =>  1:30` into minutes; `None` when it is not one
/// or when the minutes do not fit in an `i64`.
pub fn parse_duration(s: &str) -> (r: Option<i64>)
    ensures
        r matches Some(v) ==> duration_spec(s@) == Some(v as int),
        r is None ==> duration_spec(s@) is None,
{
    let c = str_chars(s);
    assert(c@.subrange(0, c@.len() as int) =~= c@);
    duration_at(c.as_slice(), 0, c.len())
}


/// The timestamp after `kw` on a planning line, when `kw` occurs and a timestamp follows it.
pub open spec fn planning_field(line: Seq<char>, kw: Seq<char>) -> Option<TsView> {
    match find(line, kw) {
        None => None,
        Some(pos) => match parse_timestamp_spec(trim_start(line.skip(pos + kw.len())), 0) {
            Some((ts, _)) => Some(ts),
            None => None,
        },
    }
}

pub open spec fn opt_ts_view(o: Option<OrgTimestamp>) -> Option<TsView> {
    match o {
        Some(t) => Some(t.view_ts()),
        None => None,
    }
}

/// The timestamp after `kw` in `s[lo..hi]`.
fn planning_field_at(s: &[char], lo: usize, hi: usize, kw: &str) -> (r: Option<OrgTimestamp>)
    requires
        lo <= hi <= s@.len(),
    ensures
        opt_ts_view(r) == planning_field(s@.subrange(lo as int, hi as int), kw@),
{
    let ghost line = s@.subrange(lo as int, hi as int);
    match find_str(s, lo, hi, kw) {
        None => None,
        Some(pos) => {
            let k = str_chars(kw);
            let a = skip_ws(s, pos + k.len(), hi);
            assert(s@.subrange(pos + k@.len(), hi as int) =~= line.skip(pos - lo + kw@.len()));
            let rest = crate::text::copy_range(s, a, hi);
            match parse_timestamp_at(rest.as_slice(), 0) {
                Some((ts, _)) => Some(ts),
                None => None,
            }
        },
    }
}

/// The planning timestamps of the planning line `s[lo..hi]`.
fn parse_planning_at(s: &[char], lo: usize, hi: usize) -> (p: Planning)
    requires
        lo <= hi <= s@.len(),
    ensures
        opt_ts_view(p.scheduled) == planning_field(s@.subrange(lo as int, hi as int), "SCHEDULED:"@),
        opt_ts_view(p.deadline) == planning_field(s@.subrange(lo as int, hi as int), "DEADLINE:"@),
        opt_ts_view(p.closed) == planning_field(s@.subrange(lo as int, hi as int), "CLOSED:"@),
{
    Planning {
        scheduled: planning_field_at(s, lo, hi, "SCHEDULED:"),
        deadline: planning_field_at(s, lo, hi, "DEADLINE:"),
        closed: planning_field_at(s, lo, hi, "CLOSED:"),
    }
}

/// The clock of a trimmed `CLOCK:` line: start, end and duration.
pub open spec fn clock_spec(t: Seq<char>) -> Option<(TsView, Option<TsView>, Option<int>)> {
    if !starts_with(t, "CLOCK:"@) {
        None
    } else {
        let rest = trim_start(t.skip(6));
        match parse_timestamp_spec(rest, 0) {
            None => None,
            Some((start, after)) => {
                let remaining = rest.skip(after);
                match find(remaining, "--"@) {
                    Some(d) => match parse_timestamp_spec(remaining.skip(d + 2), 0) {
                        Some((end, ae)) => Some((start, Some(end), duration_spec(remaining.skip(d + 2).skip(ae)))),
                        None => Some((start, None, None)),
                    },
                    None => Some((start, None, None)),
                }
            },
        }
    }
}

/// The clock entry of the trimmed line `s[lo..hi]`, on line `line_number`.
fn parse_clock_at(s: &[char], lo: usize, hi: usize, line_number: usize) -> (r: Option<ClockEntry>)
    requires
        lo <= hi <= s@.len(),
    ensures
        r is None ==> clock_spec(s@.subrange(lo as int, hi as int)) is None,
        r matches Some(c) ==> c.line == line_number && clock_spec(s@.subrange(lo as int, hi as int)) == Some(
            (c.start.view_ts(), opt_ts_view(c.end), match c.duration_minutes { Some(d) => Some(d as int), None => None }),
        ),
{
    proof {
        reveal_strlit("CLOCK:");
        reveal_strlit("--");
    }
    let ghost t = s@.subrange(lo as int, hi as int);
    if !starts_with_str(s, lo, hi, "CLOCK:") {
        return None;
    }
    let a = skip_ws(s, lo + 6, hi);
    assert(s@.subrange(lo + 6, hi as int) =~= t.skip(6));
    let rest = crate::text::copy_range(s, a, hi);
    let r = rest.as_slice();
    let (start, after) = match parse_timestamp_at(r, 0) {
        None => return None,
        Some(x) => x,
    };
    assert(r@.subrange(after as int, r@.len() as int) =~= r@.skip(after as int));
    match find_str(r, after, r.len(), "--") {
        Some(d) => {
            let rest2 = crate::text::copy_range(r, d + 2, r.len());
            assert(rest2@ =~= r@.skip(after as int).skip(d - after + 2));
            let r2 = rest2.as_slice();
            match parse_timestamp_at(r2, 0) {
                Some((end, ae)) => {
                    let duration = duration_at(r2, ae, r2.len());
                    assert(r2@.subrange(ae as int, r2@.len() as int) =~= r2@.skip(ae as int));
                    Some(ClockEntry { start, end: Some(end), duration_minutes: duration, line: line_number })
                },
                None => Some(ClockEntry { start, end: None, duration_minutes: None, line: line_number }),
            }
        },
        None => Some(ClockEntry { start, end: None, duration_minutes: None, line: line_number }),
    }
}

/// Whether line `i` of `t`, trimmed, equals `w` up to ASCII case.
pub open spec fn line_is(t: Seq<char>, spans: Seq<(int, int)>, i: int, w: Seq<char>) -> bool {
    eq_ignore_case(trim(t.subrange(spans[i].0, spans[i].1)), w)
}

/// Whether line `i` of `t` is a heading line.
pub open spec fn heading_at(t: Seq<char>, spans: Seq<(int, int)>, i: int) -> bool {
    heading_level_of(t.subrange(spans[i].0, spans[i].1)) is Some
}

/// Index of the first line at or after `i` that closes a drawer: an `:END:`
/// line, or a heading line, which a drawer never swallows; else the number
/// of lines.
pub open spec fn drawer_end(t: Seq<char>, spans: Seq<(int, int)>, i: int) -> int
    decreases spans.len() - i,
{
    if i >= spans.len() || i < 0 {
        spans.len() as int
    } else if heading_at(t, spans, i) {
        i
    } else if line_is(t, spans, i, ":END:"@) {
        i
    } else {
        drawer_end(t, spans, i + 1)
    }
}

/// The line after a drawer whose contents start at line `i`: the one after
/// its `:END:`, or the heading line or end of text that cut it short.
pub open spec fn drawer_next(t: Seq<char>, spans: Seq<(int, int)>, i: int) -> int {
    let e = drawer_end(t, spans, i);
    if e < spans.len() && !heading_at(t, spans, e) {
        e + 1
    } else {
        e
    }
}

/// Index of the first heading line at or after `i`, or the number of lines.
pub open spec fn next_heading(t: Seq<char>, spans: Seq<(int, int)>, i: int) -> int
    decreases spans.len() - i,
{
    if i >= spans.len() || i < 0 {
        spans.len() as int
    } else if heading_at(t, spans, i) {
        i
    } else {
        next_heading(t, spans, i + 1)
    }
}

/// The heading lines of `t` from line `i` on, as line indices.
pub open spec fn heads_from(t: Seq<char>, spans: Seq<(int, int)>, i: int) -> Seq<int>
    decreases spans.len() - i,
{
    if i >= spans.len() || i < 0 {
        Seq::empty()
    } else if heading_at(t, spans, i) {
        seq![i] + heads_from(t, spans, i + 1)
    } else {
        heads_from(t, spans, i + 1)
    }
}

/// The heading lines of `t`, as line indices counted from 0.
pub open spec fn heading_lines(t: Seq<char>) -> Seq<int> {
    heads_from(t, line_spans(t), 0)
}

proof fn lemma_drawer_end_bound(t: Seq<char>, spans: Seq<(int, int)>, i: int)
    requires
        0 <= i <= spans.len(),
    ensures
        i <= drawer_end(t, spans, i) <= spans.len(),
        forall|j: int| i <= j < drawer_end(t, spans, i) ==> !#[trigger] heading_at(t, spans, j),
        i <= drawer_next(t, spans, i) <= spans.len(),
        forall|j: int| i <= j < drawer_next(t, spans, i) ==> !#[trigger] heading_at(t, spans, j),
    decreases spans.len() - i,
{
    if i < spans.len() && !heading_at(t, spans, i) && !line_is(t, spans, i, ":END:"@) {
        lemma_drawer_end_bound(t, spans, i + 1);
    }
}

/// Lines that are no headings do not change where the next heading is, nor
/// the heading lines from there on.
proof fn lemma_skip_plain(t: Seq<char>, spans: Seq<(int, int)>, a: int, b: int)
    requires
        0 <= a <= b <= spans.len(),
        forall|j: int| a <= j < b ==> !#[trigger] heading_at(t, spans, j),
    ensures
        next_heading(t, spans, a) == next_heading(t, spans, b),
        heads_from(t, spans, a) == heads_from(t, spans, b),
    decreases b - a,
{
    if a < b {
        lemma_skip_plain(t, spans, a + 1, b);
    }
}

proof fn lemma_next_heading(t: Seq<char>, spans: Seq<(int, int)>, i: int)
    requires
        0 <= i <= spans.len(),
    ensures
        i <= next_heading(t, spans, i) <= spans.len(),
        next_heading(t, spans, i) < spans.len() ==> heading_at(t, spans, next_heading(t, spans, i)),
        forall|j: int| i <= j < next_heading(t, spans, i) ==> !#[trigger] heading_at(t, spans, j),
        heads_from(t, spans, i) == heads_from(t, spans, next_heading(t, spans, i)),
    decreases spans.len() - i,
{
    if i < spans.len() && !heading_at(t, spans, i) {
        lemma_next_heading(t, spans, i + 1);
    }
}

/// A heading line, trimmed, starts with `*`: no `:WORD:` line and no
/// planning line is a heading.
proof fn lemma_heading_trim(line: Seq<char>)
    requires
        heading_level_of(line) is Some,
    ensures
        trim(line).len() > 0,
        trim(line)[0] == '*',
{
    crate::text::lemma_lead_count(line, '*');
    assert(line[0] == '*');
    crate::text::lemma_lead_ws_at(line, 0);
    assert(trim_start(line) =~= line);
    crate::text::lemma_trail_ws_bound(line);
    if crate::text::trail_ws(line) == line.len() {
        assert(is_ws(line[0]));
    }
}

/// A heading line is none of the lines that open or close drawers or plan.
proof fn lemma_heading_not_special(line: Seq<char>)
    requires
        heading_level_of(line) is Some,
    ensures
        !eq_ignore_case(trim(line), ":END:"@),
        !eq_ignore_case(trim(line), ":PROPERTIES:"@),
        !eq_ignore_case(trim(line), ":LOGBOOK:"@),
        !planning_line(trim(line)),
{
    lemma_heading_trim(line);
    reveal_strlit(":END:");
    reveal_strlit(":PROPERTIES:");
    reveal_strlit(":LOGBOOK:");
    reveal_strlit("SCHEDULED:");
    reveal_strlit("DEADLINE:");
    reveal_strlit("CLOSED:");
    let x = trim(line);
    if eq_ignore_case(x, ":END:"@) {
        assert(crate::text::lower_ascii(x[0]) == crate::text::lower_ascii(":END:"@[0]));
    }
    if eq_ignore_case(x, ":PROPERTIES:"@) {
        assert(crate::text::lower_ascii(x[0]) == crate::text::lower_ascii(":PROPERTIES:"@[0]));
    }
    if eq_ignore_case(x, ":LOGBOOK:"@) {
        assert(crate::text::lower_ascii(x[0]) == crate::text::lower_ascii(":LOGBOOK:"@[0]));
    }
    if starts_with(x, "SCHEDULED:"@) {
        assert(x.take(10)[0] == x[0]);
    }
    if starts_with(x, "DEADLINE:"@) {
        assert(x.take(9)[0] == x[0]);
    }
    if starts_with(x, "CLOSED:"@) {
        assert(x.take(7)[0] == x[0]);
    }
}

/// The value of key `k` in the property lines `lo..hi` of `t`: the last one that sets it.
pub open spec fn drawer_value(t: Seq<char>, spans: Seq<(int, int)>, lo: int, hi: int, k: Seq<char>) -> Option<Seq<char>>
    decreases hi - lo,
{
    if hi <= lo {
        None
    } else {
        match property_line(trim(t.subrange(spans[hi - 1].0, spans[hi - 1].1))) {
            Some((k2, v)) => if k2 == k {
                Some(v)
            } else {
                drawer_value(t, spans, lo, hi - 1, k)
            },
            None => drawer_value(t, spans, lo, hi - 1, k),
        }
    }
}

/// The properties of the drawer whose first line is `start`, and the line
/// after it: after its `:END:`, or the heading line that cuts it short.
fn parse_property_drawer(s: &[char], lines: &Vec<(usize, usize)>, start: usize) -> (r: (PropMap, usize))
    requires
        start <= lines@.len(),
        lines@.len() == line_spans(s@).len(),
        forall|j: int| 0 <= j < lines@.len() ==> (#[trigger] lines@[j]).0 as int == line_spans(s@)[j].0 && lines@[j].1 as int == line_spans(s@)[j].1,
        forall|j: int| 0 <= j < lines@.len() ==> (#[trigger] lines@[j]).0 <= lines@[j].1 <= s@.len(),
    ensures
        start <= r.1 <= lines@.len(),
        r.1 == drawer_next(s@, line_spans(s@), start as int),
        forall|k: Seq<char>| #[trigger] r.0.get_spec(k) == drawer_value(s@, line_spans(s@), start as int, drawer_end(s@, line_spans(s@), start as int), k),
{
    let ghost spans = line_spans(s@);
    let mut props = PropMap::new();
    let mut i = start;
    while i < lines.len()
        invariant
            start <= i <= lines@.len(),
            spans == line_spans(s@),
            lines@.len() == spans.len(),
            forall|j: int| 0 <= j < lines@.len() ==> (#[trigger] lines@[j]).0 as int == spans[j].0 && lines@[j].1 as int == spans[j].1,
            forall|j: int| 0 <= j < lines@.len() ==> (#[trigger] lines@[j]).0 <= lines@[j].1 <= s@.len(),
            drawer_end(s@, spans, start as int) == drawer_end(s@, spans, i as int),
            forall|k: Seq<char>| #[trigger] props.get_spec(k) == drawer_value(s@, spans, start as int, i as int, k),
        decreases lines.len() - i,
    {
        let (a, e) = lines[i];
        if heading_level_at(s, a, e).is_some() {
            return (props, i);
        }
        let (t0, t1) = trim_range(s, a, e);
        if eq_ignore_case_str(s, t0, t1, ":END:") {
            return (props, i + 1);
        }
        let ghost before = props;
        if let Some((k, v)) = property_line_at(s, t0, t1) {
            props.insert(k, v);
        }
        assert forall|k: Seq<char>| #[trigger] props.get_spec(k) == drawer_value(s@, spans, start as int, i + 1, k) by {
            assert(drawer_value(s@, spans, start as int, i + 1, k) == match property_line(trim(s@.subrange(spans[i as int].0, spans[i as int].1))) {
                Some((k2, v)) => if k2 == k { Some(v) } else { drawer_value(s@, spans, start as int, i as int, k) },
                None => drawer_value(s@, spans, start as int, i as int, k),
            });
        }
        i += 1;
    }
    (props, i)
}

/// A clock entry as plain values: its line, start, end and duration.
pub open spec fn clock_view(c: ClockEntry) -> (int, TsView, Option<TsView>, Option<int>) {
    (
        c.line as int,
        c.start.view_ts(),
        opt_ts_view(c.end),
        match c.duration_minutes {
            Some(d) => Some(d as int),
            None => None,
        },
    )
}

pub open spec fn clocks_view(cs: Seq<ClockEntry>) -> Seq<(int, TsView, Option<TsView>, Option<int>)> {
    cs.map_values(|c: ClockEntry| clock_view(c))
}

/// The clock of line `i`, trimmed, as a sequence of at most one.
pub open spec fn clock_line(t: Seq<char>, spans: Seq<(int, int)>, i: int) -> Seq<(int, TsView, Option<TsView>, Option<int>)> {
    match clock_spec(trim(t.subrange(spans[i].0, spans[i].1))) {
        Some((st, en, du)) => seq![(i + 1, st, en, du)],
        None => Seq::empty(),
    }
}

/// The clocks of an entry's body from line `i` up to the next heading line:
/// those of `:LOGBOOK:` drawers and of `CLOCK:` lines outside them.
pub open spec fn body_clocks(t: Seq<char>, spans: Seq<(int, int)>, i: int) -> Seq<(int, TsView, Option<TsView>, Option<int>)>
    decreases spans.len() - i, 1int,
{
    if i < 0 || i >= spans.len() || heading_at(t, spans, i) {
        Seq::empty()
    } else if line_is(t, spans, i, ":LOGBOOK:"@) {
        logbook_clocks(t, spans, i + 1)
    } else {
        clock_line(t, spans, i) + body_clocks(t, spans, i + 1)
    }
}

/// The clocks from line `i` inside a `:LOGBOOK:` drawer, which ends at its
/// `:END:` or at a heading line, and of the body after it.
pub open spec fn logbook_clocks(t: Seq<char>, spans: Seq<(int, int)>, i: int) -> Seq<(int, TsView, Option<TsView>, Option<int>)>
    decreases spans.len() - i, 0int,
{
    if i < 0 || i >= spans.len() || heading_at(t, spans, i) {
        Seq::empty()
    } else if line_is(t, spans, i, ":END:"@) {
        body_clocks(t, spans, i + 1)
    } else {
        clock_line(t, spans, i) + logbook_clocks(t, spans, i + 1)
    }
}

/// Handles the non-heading line `i` of an entry's body: collects its clock
/// and says whether a `:LOGBOOK:` drawer is open after it.
fn body_line(s: &[char], lines: &Vec<(usize, usize)>, i: usize, in_log: bool, clocks: &mut Vec<ClockEntry>) -> (r: bool)
    requires
        i < lines@.len() < usize::MAX,
        lines@.len() == line_spans(s@).len(),
        forall|j: int| 0 <= j < lines@.len() ==> (#[trigger] lines@[j]).0 as int == line_spans(s@)[j].0 && lines@[j].1 as int == line_spans(s@)[j].1,
        forall|j: int| 0 <= j < lines@.len() ==> (#[trigger] lines@[j]).0 <= lines@[j].1 <= s@.len(),
        !heading_at(s@, line_spans(s@), i as int),
    ensures
        clocks_view(old(clocks)@) + (if in_log {
            logbook_clocks(s@, line_spans(s@), i as int)
        } else {
            body_clocks(s@, line_spans(s@), i as int)
        }) == clocks_view(final(clocks)@) + (if r {
            logbook_clocks(s@, line_spans(s@), i + 1)
        } else {
            body_clocks(s@, line_spans(s@), i + 1)
        }),
{
    let ghost spans = line_spans(s@);
    let (a, e) = lines[i];
    let (t0, t1) = trim_range(s, a, e);
    let ghost before = clocks_view(clocks@);
    let ghost cl = clock_line(s@, spans, i as int);
    if in_log {
        if eq_ignore_case_str(s, t0, t1, ":END:") {
            return false;
        }
    } else if eq_ignore_case_str(s, t0, t1, ":LOGBOOK:") {
        return true;
    }
    if in_log || starts_with_str(s, t0, t1, "CLOCK:") {
        match parse_clock_at(s, t0, t1, i + 1) {
            Some(c) => {
                clocks.push(c);
                assert(clocks_view(clocks@) =~= before + cl);
            },
            None => {
                assert(before + cl =~= before);
            },
        }
    } else {
        proof {
            reveal_strlit("CLOCK:");
        }
        assert(cl =~= Seq::<(int, TsView, Option<TsView>, Option<int>)>::empty());
        assert(before + cl =~= before);
    }
    proof {
        if in_log {
            assert(before + logbook_clocks(s@, spans, i as int) =~= before + cl + logbook_clocks(s@, spans, i + 1));
        } else {
            assert(before + body_clocks(s@, spans, i as int) =~= before + cl + body_clocks(s@, spans, i + 1));
        }
    }
    in_log
}

/// Scans the body of an entry from line `start`: collects the clocks of
/// `:LOGBOOK:` drawers and of standalone `CLOCK:` lines, and stops at the next
/// heading line, whose index it returns (or the number of lines).
fn scan_entry_body(s: &[char], lines: &Vec<(usize, usize)>, start: usize, clocks: &mut Vec<ClockEntry>) -> (next: usize)
    requires
        start <= lines@.len(),
        lines@.len() < usize::MAX,
        lines@.len() == line_spans(s@).len(),
        forall|j: int| 0 <= j < lines@.len() ==> (#[trigger] lines@[j]).0 as int == line_spans(s@)[j].0 && lines@[j].1 as int == line_spans(s@)[j].1,
        forall|j: int| 0 <= j < lines@.len() ==> (#[trigger] lines@[j]).0 <= lines@[j].1 <= s@.len(),
    ensures
        next == next_heading(s@, line_spans(s@), start as int),
        clocks_view(final(clocks)@) == clocks_view(old(clocks)@) + body_clocks(s@, line_spans(s@), start as int),
{
    let ghost spans = line_spans(s@);
    let ghost target = clocks_view(old(clocks)@) + body_clocks(s@, spans, start as int);
    let mut in_log = false;
    let mut i = start;
    while i < lines.len()
        invariant
            start <= i <= lines@.len(),
            lines@.len() < usize::MAX,
            spans == line_spans(s@),
            lines@.len() == spans.len(),
            forall|j: int| 0 <= j < lines@.len() ==> (#[trigger] lines@[j]).0 as int == spans[j].0 && lines@[j].1 as int == spans[j].1,
            forall|j: int| 0 <= j < lines@.len() ==> (#[trigger] lines@[j]).0 <= lines@[j].1 <= s@.len(),
            next_heading(s@, spans, start as int) == next_heading(s@, spans, i as int),
            target == clocks_view(clocks@) + if in_log {
                logbook_clocks(s@, spans, i as int)
            } else {
                body_clocks(s@, spans, i as int)
            },
        ensures
            i < lines@.len() ==> heading_at(s@, spans, i as int),
        decreases lines.len() - i,
    {
        let (a, e) = lines[i];
        if heading_level_at(s, a, e).is_some() {
            assert(heading_at(s@, spans, i as int));
            break;
        }
        in_log = body_line(s, lines, i, in_log, clocks);
        i += 1;
    }
    assert(body_clocks(s@, spans, i as int) =~= Seq::<(int, TsView, Option<TsView>, Option<int>)>::empty());
    assert(logbook_clocks(s@, spans, i as int) =~= Seq::<(int, TsView, Option<TsView>, Option<int>)>::empty());
    assert(clocks_view(clocks@) =~= target);
    i
}

/// The tags of a `#+FILETAGS:` value: the non-empty pieces between colons.
pub open spec fn filetags_spec(v: Seq<char>) -> Seq<Seq<char>> {
    let t = trim(v);
    let inner0 = t.skip(lead_count(t, ':') as int);
    let inner = inner0.take(inner0.len() - trail_count(inner0, ':'));
    split_char(inner, ':').filter(|p: Seq<char>| p.len() > 0)
}

/// The tags of a `#+FILETAGS:` value.
pub fn parse_filetags(value: Option<&String>) -> (r: Vec<String>)
    ensures
        value is None ==> r@.len() == 0,
        value matches Some(v) ==> strings_view(r@) == filetags_spec(v@),
{
    let v = match value {
        None => return Vec::new(),
        Some(v) => v,
    };
    let c = str_chars(v.as_str());
    let s = c.as_slice();
    let (t0, t1) = trim_range(s, 0, s.len());
    assert(s@.subrange(0, s@.len() as int) =~= v@);
    let ghost t = s@.subrange(t0 as int, t1 as int);
    let a = skip_char(s, t0, t1, ':');
    let b = rskip_char(s, a, t1, ':');
    assert(s@.subrange(a as int, t1 as int) =~= t.skip(lead_count(t, ':') as int));
    assert(s@.subrange(a as int, b as int) =~= t.skip(lead_count(t, ':') as int).take((t1 - a) - trail_count(s@.subrange(a as int, t1 as int), ':')));
    let parts = split_ranges(s, a, b, ':');
    let ghost pv = ranges_view(s@, parts@);
    let mut out: Vec<String> = Vec::new();
    let mut i: usize = 0;
    while i < parts.len()
        invariant
            i <= parts@.len(),
            pv == ranges_view(s@, parts@),
            forall|j: int| 0 <= j < parts@.len() ==> a <= (#[trigger] parts@[j]).0 <= parts@[j].1 <= b,
            b <= s@.len(),
            strings_view(out@) == pv.take(i as int).filter(|p: Seq<char>| p.len() > 0),
        decreases parts.len() - i,
    {
        let (x, y) = parts[i];
        assert(pv[i as int] == s@.subrange(x as int, y as int));
        assert(pv.take(i + 1).drop_last() =~= pv.take(i as int));
        proof {
            reveal(Seq::filter);
            assert(pv.take(i + 1).last() == pv[i as int]);
        }
        let ghost before = strings_view(out@);
        if y > x {
            out.push(string_of(s, x, y));
            assert(strings_view(out@) =~= before.push(pv[i as int]));
        }
        i += 1;
    }
    assert(pv.take(i as int) =~= pv);
    out
}

/// The default properties of a `#+PROPERTY:` value `KEY VALUE`: the key in upper
/// case and the trimmed rest, when there is whitespace after the key.
pub open spec fn default_property(v: Seq<char>) -> Option<(Seq<char>, Seq<char>)> {
    let t = trim(v);
    match first_ws(t) {
        None => None,
        Some(sp) => {
            let key = upper_text(t.take(sp));
            if key.len() == 0 {
                None
            } else {
                Some((key, trim(t.skip(sp))))
            }
        },
    }
}

/// Index of the first whitespace character of `t`.
pub open spec fn first_ws(t: Seq<char>) -> Option<int>
    decreases t.len(),
{
    if t.len() == 0 {
        None
    } else if is_ws(t[0]) {
        Some(0)
    } else {
        match first_ws(t.drop_first()) {
            Some(i) => Some(i + 1),
            None => None,
        }
    }
}

proof fn lemma_first_ws_at(t: Seq<char>, k: int)
    requires
        0 <= k <= t.len(),
        forall|i: int| 0 <= i < k ==> !is_ws(#[trigger] t[i]),
        k == t.len() || is_ws(t[k]),
    ensures
        k == t.len() ==> first_ws(t) is None,
        k < t.len() ==> first_ws(t) == Some(k),
    decreases t.len(),
{
    if t.len() > 0 && k > 0 {
        assert forall|i: int| 0 <= i < k - 1 implies !is_ws(#[trigger] t.drop_first()[i]) by {
            assert(t.drop_first()[i] == t[i + 1]);
        }
        if k < t.len() {
            assert(t.drop_first()[k - 1] == t[k]);
        }
        lemma_first_ws_at(t.drop_first(), k - 1);
    }
}

/// The default properties that the file keywords set through `#+PROPERTY:`.
pub fn parse_default_properties(file_keywords: &PropMap) -> (m: PropMap)
    ensures
        forall|k: Seq<char>| #[trigger] m.get_spec(k) == match file_keywords.get_spec("PROPERTY"@) {
            Some(v) => match default_property(v) {
                Some((key, value)) => if k == key { Some(value) } else { None },
                None => None,
            },
            None => None,
        },
{
    let mut props = PropMap::new();
    if let Some(v) = file_keywords.get("PROPERTY") {
        let c = str_chars(v.as_str());
        let s = c.as_slice();
        assert(s@.subrange(0, s@.len() as int) =~= v@);
        let (t0, t1) = trim_range(s, 0, s.len());
        let ghost t = s@.subrange(t0 as int, t1 as int);
        let mut k = t0;
        while k < t1 && !crate::text::char_is_ws(s[k])
            invariant
                t0 <= k <= t1 <= s@.len(),
                forall|i: int| t0 <= i < k ==> !is_ws(#[trigger] s@[i]),
            decreases t1 - k,
        {
            k += 1;
        }
        proof {
            assert forall|i: int| 0 <= i < k - t0 implies !is_ws(#[trigger] t[i]) by {
                assert(t[i] == s@[t0 + i]);
            }
            if k < t1 {
                assert(t[k - t0] == s@[k as int]);
            }
            lemma_first_ws_at(t, k - t0);
        }
        if k < t1 {
            let key = to_upper(&s[t0..k]);
            assert(s@.subrange(t0 as int, k as int) =~= t.take(k - t0));
            assert(key@.subrange(0, key@.len() as int) =~= key@);
            let (v0, v1) = trim_range(s, k, t1);
            assert(s@.subrange(k as int, t1 as int) =~= t.skip(k - t0));
            if key.len() > 0 {
                props.insert(string_of(key.as_slice(), 0, key.len()), string_of(s, v0, v1));
            }
        }
    }
    props
}


// ---------------------------------------------------------------------------
// The heading tree
// ---------------------------------------------------------------------------
/// The last entry among the first `j` whose level is below `lvl`.
pub open spec fn last_smaller(es: Seq<OrgEntry>, lvl: usize, j: int) -> Option<usize>
    decreases j,
{
    if j <= 0 {
        None
    } else if es[j - 1].level < lvl {
        Some((j - 1) as usize)
    } else {
        last_smaller(es, lvl, j - 1)
    }
}

/// The entries among the first `n` whose parent is `p`, in order.
pub open spec fn kids(es: Seq<OrgEntry>, p: int, n: int) -> Seq<usize>
    decreases n,
{
    if n <= 0 {
        Seq::empty()
    } else {
        kids(es, p, n - 1) + if es[n - 1].parent == Some(p as usize) {
            seq![(n - 1) as usize]
        } else {
            Seq::<usize>::empty()
        }
    }
}

/// The parent of each entry is the last earlier entry of a lower level, and the
/// children of each entry are the entries whose parent it is, in order.
pub open spec fn tree_wf(es: Seq<OrgEntry>) -> bool {
    &&& forall|i: int| 0 <= i < es.len() ==> (#[trigger] es[i]).parent == last_smaller(es, es[i].level, i)
    &&& forall|i: int| 0 <= i < es.len() ==> (#[trigger] es[i]).children@ == kids(es, i, es.len() as int)
}

/// The heading parts of an entry.
pub open spec fn entry_heading(e: OrgEntry) -> HeadingView {
    HeadingView {
        level: e.level as nat,
        keyword: match e.keyword {
            Some(k) => Some(k@),
            None => None,
        },
        priority: e.priority,
        title: e.title@,
        tags: strings_view(e.tags@),
    }
}

proof fn lemma_last_smaller_same(es1: Seq<OrgEntry>, es2: Seq<OrgEntry>, lvl: usize, j: int)
    requires
        0 <= j <= es1.len(),
        j <= es2.len(),
        forall|k: int| 0 <= k < j ==> (#[trigger] es1[k]).level == es2[k].level,
    ensures
        last_smaller(es1, lvl, j) == last_smaller(es2, lvl, j),
    decreases j,
{
    if j > 0 {
        lemma_last_smaller_same(es1, es2, lvl, j - 1);
    }
}

proof fn lemma_kids_same(es1: Seq<OrgEntry>, es2: Seq<OrgEntry>, p: int, n: int)
    requires
        0 <= n <= es1.len(),
        n <= es2.len(),
        forall|k: int| 0 <= k < n ==> (#[trigger] es1[k]).parent == es2[k].parent,
    ensures
        kids(es1, p, n) == kids(es2, p, n),
    decreases n,
{
    if n > 0 {
        lemma_kids_same(es1, es2, p, n - 1);
    }
}

proof fn lemma_last_smaller_bound(es: Seq<OrgEntry>, lvl: usize, j: int)
    requires
        j <= es.len(),
        j <= usize::MAX,
    ensures
        last_smaller(es, lvl, j) matches Some(p) ==> 0 <= p < j && es[p as int].level < lvl,
    decreases j,
{
    if j > 0 {
        lemma_last_smaller_bound(es, lvl, j - 1);
    }
}

proof fn lemma_kids_none(es: Seq<OrgEntry>, p: int, n: int)
    requires
        0 <= n <= es.len(),
        forall|k: int| 0 <= k < n ==> (#[trigger] es[k]).parent != Some(p as usize),
    ensures
        kids(es, p, n).len() == 0,
    decreases n,
{
    if n > 0 {
        lemma_kids_none(es, p, n - 1);
    }
}

/// The parent of a new entry at level `level` after the entries `es`.
fn find_parent(es: &Vec<OrgEntry>, level: usize) -> (r: Option<usize>)
    ensures
        r == last_smaller(es@, level, es@.len() as int),
{
    let mut j = es.len();
    while j > 0
        invariant
            j <= es@.len(),
            last_smaller(es@, level, es@.len() as int) == last_smaller(es@, level, j as int),
        decreases j,
    {
        if es[j - 1].level < level {
            return Some(j - 1);
        }
        j -= 1;
    }
    None
}

/// Line `i` of `t`.
pub open spec fn line_text(t: Seq<char>, spans: Seq<(int, int)>, i: int) -> Seq<char> {
    t.subrange(spans[i].0, spans[i].1)
}

/// The planning line of the heading on line `h`: the next line, when it is one.
pub open spec fn planning_index(t: Seq<char>, spans: Seq<(int, int)>, h: int) -> Option<int> {
    if h + 1 < spans.len() && planning_line(trim(line_text(t, spans, h + 1))) {
        Some(h + 1)
    } else {
        None
    }
}

/// The line after the heading on line `h` and its planning line.
pub open spec fn drawer_line(t: Seq<char>, spans: Seq<(int, int)>, h: int) -> int {
    match planning_index(t, spans, h) {
        Some(p) => p + 1,
        None => h + 1,
    }
}

/// Whether a property drawer opens right after the heading on line `h` and
/// its planning line.
pub open spec fn has_drawer(t: Seq<char>, spans: Seq<(int, int)>, h: int) -> bool {
    drawer_line(t, spans, h) < spans.len() && line_is(t, spans, drawer_line(t, spans, h), ":PROPERTIES:"@)
}

/// The first line of the body of the heading on line `h`, after its
/// planning line and property drawer.
pub open spec fn body_start(t: Seq<char>, spans: Seq<(int, int)>, h: int) -> int {
    if has_drawer(t, spans, h) {
        drawer_next(t, spans, drawer_line(t, spans, h) + 1)
    } else {
        drawer_line(t, spans, h)
    }
}

/// The value of property `k` in the drawer of the heading on line `h`.
pub open spec fn entry_property(t: Seq<char>, spans: Seq<(int, int)>, h: int, k: Seq<char>) -> Option<Seq<char>> {
    if has_drawer(t, spans, h) {
        let j = drawer_line(t, spans, h) + 1;
        drawer_value(t, spans, j, drawer_end(t, spans, j), k)
    } else {
        None
    }
}

/// The timestamp after `kw` in the planning line of the heading on line `h`.
pub open spec fn entry_planning(t: Seq<char>, spans: Seq<(int, int)>, h: int, kw: Seq<char>) -> Option<TsView> {
    match planning_index(t, spans, h) {
        Some(p) => planning_field(trim(line_text(t, spans, p)), kw),
        None => None,
    }
}

/// What an entry holds of the lines under its heading on line `h`: its
/// planning, its properties and its clocks.
pub open spec fn entry_details(t: Seq<char>, h: int, e: OrgEntry) -> bool {
    let spans = line_spans(t);
    &&& opt_ts_view(e.planning.scheduled) == entry_planning(t, spans, h, "SCHEDULED:"@)
    &&& opt_ts_view(e.planning.deadline) == entry_planning(t, spans, h, "DEADLINE:"@)
    &&& opt_ts_view(e.planning.closed) == entry_planning(t, spans, h, "CLOSED:"@)
    &&& forall|k: Seq<char>| #[trigger] e.properties.get_spec(k) == entry_property(t, spans, h, k)
    &&& clocks_view(e.clocks@) == body_clocks(t, spans, body_start(t, spans, h))
}

/// The entry of the heading on line `i`: its parts, the planning line, the
/// property drawer and the clocks of its body; and the next heading line.
#[verifier::rlimit(40)]
fn read_entry(
    s: &[char],
    lines: &Vec<(usize, usize)>,
    i: usize,
    parts: HeadingParts,
    parent: Option<usize>,
) -> (r: (OrgEntry, usize))
    requires
        i < lines@.len(),
        lines@.len() == line_spans(s@).len(),
        lines@.len() < usize::MAX,
        forall|j: int| 0 <= j < lines@.len() ==> (#[trigger] lines@[j]).0 as int == line_spans(s@)[j].0 && lines@[j].1 as int == line_spans(s@)[j].1,
        forall|j: int| 0 <= j < lines@.len() ==> (#[trigger] lines@[j]).0 <= lines@[j].1 <= s@.len(),
    ensures
        i < r.1 <= lines@.len(),
        r.1 == next_heading(s@, line_spans(s@), i + 1),
        entry_heading(r.0) == parts.view_parts(),
        r.0.heading_line == i + 1,
        r.0.heading_offset == lines@[i as int].0,
        r.0.parent == parent,
        r.0.children@.len() == 0,
        r.0.raw_heading@ == s@.subrange(lines@[i as int].0 as int, lines@[i as int].1 as int),
        entry_details(s@, i as int, r.0),
{
    let ghost t = s@;
    let ghost spans = line_spans(s@);
    let (a, e) = lines[i];
    let raw_heading = string_of(s, a, e);
    let mut j = i + 1;
    let mut planning = Planning::default();
    if j < lines.len() {
        let (b0, b1) = lines[j];
        let (t0, t1) = trim_range(s, b0, b1);
        if is_planning_line_at(s, t0, t1) {
            planning = parse_planning_at(s, t0, t1);
            proof {
                if heading_at(t, spans, j as int) {
                    lemma_heading_not_special(line_text(t, spans, j as int));
                }
            }
            j += 1;
        }
    }
    assert(j == drawer_line(t, spans, i as int));
    let mut properties = PropMap::new();
    let ghost pe = properties;
    if j < lines.len() {
        let (b0, b1) = lines[j];
        let (t0, t1) = trim_range(s, b0, b1);
        if eq_ignore_case_str(s, t0, t1, ":PROPERTIES:") {
            proof {
                if heading_at(t, spans, j as int) {
                    lemma_heading_not_special(line_text(t, spans, j as int));
                }
                lemma_drawer_end_bound(t, spans, j + 1);
            }
            let (props, end) = parse_property_drawer(s, lines, j + 1);
            properties = props;
            j = end;
        }
    }
    assert(j == body_start(t, spans, i as int));
    proof {
        assert forall|q: int| i + 1 <= q < j implies !#[trigger] heading_at(t, spans, q) by {
            if q == drawer_line(t, spans, i as int) && has_drawer(t, spans, i as int) {
                if heading_at(t, spans, q) {
                    lemma_heading_not_special(line_text(t, spans, q));
                }
            } else if planning_index(t, spans, i as int) == Some(q) {
                if heading_at(t, spans, q) {
                    lemma_heading_not_special(line_text(t, spans, q));
                }
            }
        }
        lemma_skip_plain(t, spans, i + 1, j as int);
        lemma_next_heading(t, spans, j as int);
    }
    let mut clocks: Vec<ClockEntry> = Vec::new();
    let next = scan_entry_body(s, lines, j, &mut clocks);
    assert(clocks_view(clocks@) =~= body_clocks(t, spans, j as int));
    let HeadingParts { level, keyword, priority, title, tags } = parts;
    let entry = OrgEntry {
        level,
        keyword,
        priority,
        title,
        tags,
        properties,
        planning,
        clocks,
        heading_line: i + 1,
        heading_offset: a,
        content_end_line: lines.len(),
        parent,
        children: Vec::new(),
        raw_heading,
    };
    (entry, next)
}

/// The fields of an entry other than its children and its end line.
pub open spec fn same_head(a: OrgEntry, b: OrgEntry) -> bool {
    &&& entry_heading(a) == entry_heading(b)
    &&& a.heading_line == b.heading_line
    &&& a.heading_offset == b.heading_offset
    &&& a.parent == b.parent
    &&& a.raw_heading@ == b.raw_heading@
    &&& a.properties == b.properties
    &&& a.planning == b.planning
    &&& a.clocks == b.clocks
}

/// Appends `entry` to the tree and records it among its parent's children.
fn link_entry(entries: &mut Vec<OrgEntry>, entry: OrgEntry)
    requires
        tree_wf(old(entries)@),
        entry.parent == last_smaller(old(entries)@, entry.level, old(entries)@.len() as int),
        entry.children@.len() == 0,
    ensures
        final(entries)@.len() == old(entries)@.len() + 1,
        tree_wf(final(entries)@),
        final(entries)@.last() == entry,
        forall|k: int| 0 <= k < old(entries)@.len() ==> same_head(#[trigger] final(entries)@[k], old(entries)@[k])
            && final(entries)@[k].content_end_line == old(entries)@[k].content_end_line,
{
    let idx = entries.len();
    let ghost before = entries@;
    proof {
        lemma_last_smaller_bound(before, entry.level, idx as int);
    }
    match entry.parent {
        Some(p) => {
            let mut kids_p: Vec<usize> = Vec::new();
            std::mem::swap(&mut kids_p, &mut entries[p].children);
            kids_p.push(idx);
            entries[p].children = kids_p;
        },
        None => {},
    }
    entries.push(entry);
    proof {
        let es = entries@;
        assert forall|k: int| 0 <= k < es.len() implies (#[trigger] es[k]).parent == last_smaller(es, es[k].level, k) by {
            lemma_last_smaller_same(es, before, es[k].level, k);
        }
        assert forall|k: int| 0 <= k < es.len() implies (#[trigger] es[k]).children@ == kids(es, k, es.len() as int) by {
            lemma_kids_same(es, before, k, idx as int);
            assert(kids(es, k, idx + 1) == kids(es, k, idx as int) + if es[idx as int].parent == Some(k as usize) {
                seq![idx]
            } else {
                Seq::<usize>::empty()
            });
            if k == idx {
                assert forall|m: int| 0 <= m < idx implies (#[trigger] es[m]).parent != Some(k as usize) by {
                    lemma_last_smaller_bound(before, before[m].level, m);
                }
                lemma_kids_none(es, k, idx as int);
            }
        }
    }
}

/// Sets the end line of each entry: the next entry's heading line, or one
/// past the last line for the last entry.
fn set_content_ends(entries: &mut Vec<OrgEntry>, n: usize)
    requires
        n < usize::MAX,
        tree_wf(old(entries)@),
    ensures
        final(entries)@.len() == old(entries)@.len(),
        tree_wf(final(entries)@),
        forall|k: int| 0 <= k < old(entries)@.len() ==> same_head(#[trigger] final(entries)@[k], old(entries)@[k])
            && final(entries)@[k].content_end_line == if k + 1 < old(entries)@.len() {
                old(entries)@[k + 1].heading_line as int
            } else {
                n + 1
            },
{
    let ghost orig = entries@;
    let mut idx: usize = 0;
    while idx < entries.len()
        invariant
            n < usize::MAX,
            idx <= entries@.len() == orig.len(),
            tree_wf(orig),
            forall|k: int| 0 <= k < orig.len() ==> same_head(#[trigger] entries@[k], orig[k])
                && entries@[k].level == orig[k].level && entries@[k].children@ == orig[k].children@,
            forall|k: int| 0 <= k < idx ==> (#[trigger] entries@[k]).content_end_line == if k + 1 < orig.len() {
                orig[k + 1].heading_line as int
            } else {
                n + 1
            },
        decreases entries.len() - idx,
    {
        let end = if idx + 1 < entries.len() {
            entries[idx + 1].heading_line
        } else {
            n + 1
        };
        entries[idx].content_end_line = end;
        idx += 1;
    }
    proof {
        let es = entries@;
        assert forall|k: int| 0 <= k < es.len() implies (#[trigger] es[k]).parent == last_smaller(es, es[k].level, k) by {
            lemma_last_smaller_same(es, orig, es[k].level, k);
        }
        assert forall|k: int| 0 <= k < es.len() implies (#[trigger] es[k]).children@ == kids(es, k, es.len() as int) by {
            lemma_kids_same(es, orig, k, es.len() as int);
        }
    }
}

/// The line the preamble scan goes to after line `i`: past a property
/// drawer that opens there, else the next line.
pub open spec fn pre_next(t: Seq<char>, spans: Seq<(int, int)>, i: int) -> int {
    if line_is(t, spans, i, ":PROPERTIES:"@) {
        drawer_next(t, spans, i + 1)
    } else {
        i + 1
    }
}

/// The value of file keyword `k` after the preamble lines from line `i` on,
/// up to the first heading line, `acc` being its value before them; the
/// lines inside a property drawer are not read as keywords.
pub open spec fn pre_keyword(t: Seq<char>, spans: Seq<(int, int)>, i: int, k: Seq<char>, acc: Option<Seq<char>>) -> Option<Seq<char>>
    decreases spans.len() - i,
{
    if i < 0 || i >= spans.len() || heading_at(t, spans, i) {
        acc
    } else {
        let acc2 = match keyword_line(line_text(t, spans, i)) {
            Some((key, v)) => if key == k {
                Some(v)
            } else {
                acc
            },
            None => acc,
        };
        let nx = pre_next(t, spans, i);
        if nx <= i || nx > spans.len() {
            acc2
        } else {
            pre_keyword(t, spans, nx, k, acc2)
        }
    }
}

/// The value of file property `k` after the preamble lines from line `i`
/// on, `acc` being its value before them: a property drawer replaces all
/// the file properties with its own.
pub open spec fn pre_property(t: Seq<char>, spans: Seq<(int, int)>, i: int, k: Seq<char>, acc: Option<Seq<char>>) -> Option<Seq<char>>
    decreases spans.len() - i,
{
    if i < 0 || i >= spans.len() || heading_at(t, spans, i) {
        acc
    } else {
        let acc2 = if line_is(t, spans, i, ":PROPERTIES:"@) {
            drawer_value(t, spans, i + 1, drawer_end(t, spans, i + 1), k)
        } else {
            acc
        };
        let nx = pre_next(t, spans, i);
        if nx <= i || nx > spans.len() {
            acc2
        } else {
            pre_property(t, spans, nx, k, acc2)
        }
    }
}

/// The scan before the first heading: the file keywords, the properties of a
/// property drawer, and the index of the first heading line (or the number of
/// lines).
fn scan_preamble(s: &[char], lines: &Vec<(usize, usize)>) -> (r: (PropMap, PropMap, usize))
    requires
        lines@.len() == line_spans(s@).len(),
        forall|j: int| 0 <= j < lines@.len() ==> (#[trigger] lines@[j]).0 as int == line_spans(s@)[j].0 && lines@[j].1 as int == line_spans(s@)[j].1,
        forall|j: int| 0 <= j < lines@.len() ==> (#[trigger] lines@[j]).0 <= lines@[j].1 <= s@.len(),
    ensures
        r.2 <= lines@.len(),
        r.2 == next_heading(s@, line_spans(s@), 0),
        forall|k: Seq<char>| #[trigger] r.0.get_spec(k) == pre_keyword(s@, line_spans(s@), 0, k, None),
        forall|k: Seq<char>| #[trigger] r.1.get_spec(k) == pre_property(s@, line_spans(s@), 0, k, None),
{
    let ghost spans = line_spans(s@);
    let mut file_keywords = PropMap::new();
    let mut file_properties = PropMap::new();
    let n = lines.len();
    let mut i: usize = 0;
    while i < n
        invariant
            i <= n == lines@.len() == line_spans(s@).len(),
            spans == line_spans(s@),
            forall|j: int| 0 <= j < lines@.len() ==> (#[trigger] lines@[j]).0 as int == line_spans(s@)[j].0 && lines@[j].1 as int == line_spans(s@)[j].1,
            forall|j: int| 0 <= j < lines@.len() ==> (#[trigger] lines@[j]).0 <= lines@[j].1 <= s@.len(),
            next_heading(s@, spans, 0) == next_heading(s@, spans, i as int),
            forall|k: Seq<char>| pre_keyword(s@, spans, 0, k, None) == #[trigger] pre_keyword(s@, spans, i as int, k, file_keywords.get_spec(k)),
            forall|k: Seq<char>| pre_property(s@, spans, 0, k, None) == #[trigger] pre_property(s@, spans, i as int, k, file_properties.get_spec(k)),
        decreases n - i,
    {
        let (a, e) = lines[i];
        if heading_level_at(s, a, e).is_some() {
            assert(heading_at(s@, spans, i as int));
            assert forall|k: Seq<char>| #[trigger] file_keywords.get_spec(k) == pre_keyword(s@, spans, 0, k, None) by {
                assert(pre_keyword(s@, spans, i as int, k, file_keywords.get_spec(k)) == file_keywords.get_spec(k));
            }
            assert forall|k: Seq<char>| #[trigger] file_properties.get_spec(k) == pre_property(s@, spans, 0, k, None) by {
                assert(pre_property(s@, spans, i as int, k, file_properties.get_spec(k)) == file_properties.get_spec(k));
            }
            return (file_keywords, file_properties, i);
        }
        let ghost kw0 = file_keywords;
        let ghost pr0 = file_properties;
        if let Some((key, val)) = keyword_line_at(s, a, e) {
            file_keywords.insert(key, val);
        }
        let ghost kw1 = file_keywords;
        let (t0, t1) = trim_range(s, a, e);
        let opens = eq_ignore_case_str(s, t0, t1, ":PROPERTIES:");
        let next = if opens {
            proof {
                lemma_drawer_end_bound(s@, spans, i + 1);
            }
            let (props, end) = parse_property_drawer(s, lines, i + 1);
            file_properties = props;
            end
        } else {
            i + 1
        };
        proof {
            assert(next as int == pre_next(s@, spans, i as int));
            lemma_drawer_end_bound(s@, spans, i + 1);
            assert forall|j: int| i <= j < next implies !#[trigger] heading_at(s@, spans, j) by {}
            lemma_skip_plain(s@, spans, i as int, next as int);
            assert forall|k: Seq<char>| pre_keyword(s@, spans, 0, k, None) == #[trigger] pre_keyword(s@, spans, next as int, k, file_keywords.get_spec(k)) by {
                assert(pre_keyword(s@, spans, i as int, k, kw0.get_spec(k)) == pre_keyword(s@, spans, next as int, k, kw1.get_spec(k)));
            }
            assert forall|k: Seq<char>| pre_property(s@, spans, 0, k, None) == #[trigger] pre_property(s@, spans, next as int, k, file_properties.get_spec(k)) by {
                assert(pre_property(s@, spans, i as int, k, pr0.get_spec(k)) == pre_property(s@, spans, next as int, k, file_properties.get_spec(k)));
            }
        }
        i = next;
    }
    assert forall|k: Seq<char>| #[trigger] file_keywords.get_spec(k) == pre_keyword(s@, spans, 0, k, None) by {
        assert(pre_keyword(s@, spans, i as int, k, file_keywords.get_spec(k)) == file_keywords.get_spec(k));
    }
    assert forall|k: Seq<char>| #[trigger] file_properties.get_spec(k) == pre_property(s@, spans, 0, k, None) by {
        assert(pre_property(s@, spans, i as int, k, file_properties.get_spec(k)) == file_properties.get_spec(k));
    }
    (file_keywords, file_properties, n)
}

/// What a document built from the text `t` holds of its entries' lines: the
/// entries form a tree, and each spans from its heading line, counted from 1,
/// up to the line where its content ends, at most one past the last line.
#[verifier::opaque]
pub open spec fn lines_fit(d: OrgDocument, t: Seq<char>) -> bool {
    &&& tree_wf(d.entries@)
    &&& forall|k: int| 0 <= k < d.entries@.len() ==> 1 <= (#[trigger] d.entries@[k]).heading_line
        < d.entries@[k].content_end_line <= line_spans(t).len() + 1
    &&& forall|k: int| 0 <= k < d.entries@.len() - 1 ==> (#[trigger] d.entries@[k]).content_end_line
        == d.entries@[k + 1].heading_line
    &&& forall|k: int, l: int| 0 <= k < l < d.entries@.len() ==> d.entries@[k].heading_line < d.entries@[l].heading_line
}

/// The facts of [`lines_fit`] about entry `k`.
pub proof fn lemma_lines_fit(d: OrgDocument, t: Seq<char>, k: int)
    requires
        lines_fit(d, t),
        0 <= k < d.entries@.len(),
    ensures
        tree_wf(d.entries@),
        1 <= d.entries@[k].heading_line < d.entries@[k].content_end_line <= line_spans(t).len() + 1,
        k + 1 < d.entries@.len() ==> d.entries@[k].content_end_line == d.entries@[k + 1].heading_line
            && d.entries@[k].heading_line < d.entries@[k + 1].heading_line,
{
    reveal(lines_fit);
}

/// Whether `h` is the heading that `line` parses to with the TODO keywords `kw`.
#[verifier::opaque]
pub open spec fn heading_of(line: Seq<char>, kw: Seq<Seq<char>>, h: HeadingView) -> bool {
    parse_heading_spec(line, kw) == Some(h)
}

/// What `from_source` promises of each entry, built from the text `t` with the
/// TODO keywords `kw`: it stands for the heading on its line.
#[verifier::opaque]
pub open spec fn entry_from_line(t: Seq<char>, kw: Seq<Seq<char>>, e: OrgEntry) -> bool {
    let spans = line_spans(t);
    &&& 1 <= e.heading_line <= spans.len()
    &&& e.raw_heading@ == t.subrange(spans[e.heading_line - 1].0, spans[e.heading_line - 1].1)
    &&& e.heading_offset == spans[e.heading_line - 1].0
    &&& heading_of(e.raw_heading@, kw, entry_heading(e))
    &&& entry_details(t, e.heading_line - 1, e)
}

/// The heading lines of the entries `es`, counted from 0.
pub open spec fn entry_lines(es: Seq<OrgEntry>) -> Seq<int> {
    es.map_values(|e: OrgEntry| e.heading_line - 1)
}

#[verifier::rlimit(80)]
#[verifier::spinoff_prover]
/// Handles line `i` of the scan after the first heading: a heading line
/// becomes an entry of the tree; the index of the next line to scan is
/// returned.
fn scan_step(
    s: &[char],
    lines: &Vec<(usize, usize)>,
    i: usize,
    kw_list: &Vec<Vec<char>>,
    entries: &mut Vec<OrgEntry>,
) -> (next: usize)
    requires
        i < lines@.len() == line_spans(s@).len(),
        lines@.len() < usize::MAX,
        forall|j: int| 0 <= j < lines@.len() ==> (#[trigger] lines@[j]).0 as int == line_spans(s@)[j].0 && lines@[j].1 as int == line_spans(s@)[j].1,
        forall|j: int| 0 <= j < lines@.len() ==> (#[trigger] lines@[j]).0 <= lines@[j].1 <= s@.len(),
        tree_wf(old(entries)@),
        forall|k: int| 0 <= k < old(entries)@.len() ==> entry_from_line(s@, kw_list@.map_values(|w: Vec<char>| w@), #[trigger] old(entries)@[k])
            && old(entries)@[k].heading_line <= i,
        forall|k: int, l: int| 0 <= k < l < old(entries)@.len() ==> old(entries)@[k].heading_line < old(entries)@[l].heading_line,
    ensures
        i < next <= lines@.len(),
        tree_wf(final(entries)@),
        forall|k: int| 0 <= k < final(entries)@.len() ==> entry_from_line(s@, kw_list@.map_values(|w: Vec<char>| w@), #[trigger] final(entries)@[k])
            && final(entries)@[k].heading_line <= next,
        forall|k: int, l: int| 0 <= k < l < final(entries)@.len() ==> final(entries)@[k].heading_line < final(entries)@[l].heading_line,
        entry_lines(final(entries)@) + heads_from(s@, line_spans(s@), next as int) == entry_lines(old(entries)@) + heads_from(
            s@,
            line_spans(s@),
            i as int,
        ),
{
    let ghost kw = kw_list@.map_values(|w: Vec<char>| w@);
    let ghost spans = line_spans(s@);
    let (a, e) = lines[i];
    match parse_heading_at(s, a, e, kw_list.as_slice()) {
        Some(parts) => {
            let parent = find_parent(entries, parts.level);
            let (entry, next) = read_entry(s, lines, i, parts, parent);
            proof {
                lemma_new_entry(s@, kw, entry, i as int, parts.view_parts());
            }
            let ghost before = entries@;
            link_entry(entries, entry);
            proof {
                assert(heading_at(s@, spans, i as int));
                lemma_heads_step(s@, spans, i as int, next as int, before, entries@);
                lemma_keep_entries(s@, kw, before, entries@, i as int, next as int);
            }
            next
        },
        None => {
            assert(!heading_at(s@, spans, i as int));
            i + 1
        },
    }
}

/// The entry that `read_entry` builds for the heading on line `i` stands for
/// that heading.
proof fn lemma_new_entry(t: Seq<char>, kw: Seq<Seq<char>>, e: OrgEntry, i: int, h: HeadingView)
    requires
        0 <= i < line_spans(t).len(),
        parse_heading_spec(t.subrange(line_spans(t)[i].0, line_spans(t)[i].1), kw) == Some(h),
        entry_heading(e) == h,
        e.heading_line == i + 1,
        e.heading_offset == line_spans(t)[i].0,
        e.raw_heading@ == t.subrange(line_spans(t)[i].0, line_spans(t)[i].1),
        entry_details(t, i, e),
    ensures
        entry_from_line(t, kw, e),
{
    reveal(heading_of);
    reveal(entry_from_line);
}

/// Adding the entry of the heading on line `i` keeps the entries' lines
/// followed by the heading lines still to scan.
proof fn lemma_heads_step(t: Seq<char>, spans: Seq<(int, int)>, i: int, next: int, before: Seq<OrgEntry>, after: Seq<OrgEntry>)
    requires
        0 <= i < spans.len(),
        heading_at(t, spans, i),
        next == next_heading(t, spans, i + 1),
        after.len() == before.len() + 1,
        after.last().heading_line == i + 1,
        forall|k: int| 0 <= k < before.len() ==> (#[trigger] after[k]).heading_line == before[k].heading_line,
    ensures
        entry_lines(after) + heads_from(t, spans, next) == entry_lines(before) + heads_from(t, spans, i),
{
    lemma_next_heading(t, spans, i + 1);
    assert(entry_lines(after) =~= entry_lines(before).push(i));
    assert(heads_from(t, spans, i) == seq![i] + heads_from(t, spans, i + 1));
    assert(entry_lines(after) + heads_from(t, spans, next) =~= entry_lines(before) + heads_from(t, spans, i));
}

/// After one more entry is linked, every entry still stands for the heading
/// on its line, and none lies past `next`.
proof fn lemma_keep_entries(t: Seq<char>, kw: Seq<Seq<char>>, before: Seq<OrgEntry>, after: Seq<OrgEntry>, i: int, next: int)
    requires
        i < next,
        after.len() == before.len() + 1,
        entry_from_line(t, kw, after.last()),
        after.last().heading_line == i + 1,
        forall|k: int| 0 <= k < before.len() ==> entry_from_line(t, kw, #[trigger] before[k]) && before[k].heading_line <= i,
        forall|k: int| 0 <= k < before.len() ==> same_head(#[trigger] after[k], before[k]),
    ensures
        forall|k: int| 0 <= k < after.len() ==> entry_from_line(t, kw, #[trigger] after[k]) && after[k].heading_line <= next,
{
    assert forall|k: int| 0 <= k < after.len() implies entry_from_line(t, kw, #[trigger] after[k]) && after[k].heading_line <= next by {
        if k < before.len() {
            lemma_same_head_line(t, kw, after[k], before[k]);
        }
    }
}

proof fn lemma_same_head_line(t: Seq<char>, kw: Seq<Seq<char>>, a: OrgEntry, b: OrgEntry)
    requires
        same_head(a, b),
        entry_from_line(t, kw, b),
    ensures
        entry_from_line(t, kw, a),
        a.heading_line == b.heading_line,
{
    reveal(entry_from_line);
}

impl OrgDocument {
    /// Builds the document of a source file with one scan over its lines.
    ///
    /// Before the first heading, `#+KEY: value` lines are collected as file
    /// keywords and a property drawer as file properties; at the first heading
    /// the TODO keywords, priorities, file tags and default properties are taken
    /// from them. Each heading then becomes an entry, with the planning line and
    /// property drawer that follow it and the clocks of its body.
    #[verifier::spinoff_prover]
    pub fn from_source(source: &SourceFile) -> (d: OrgDocument)
        ensures
            d.file@ == source.path_view(),
            tree_wf(d.entries@),
            forall|i: int| 0 <= i < d.entries@.len() ==> entry_from_line(source.text(), d.todo_keywords.all_spec(), #[trigger] d.entries@[i]),
            forall|i: int| 0 <= i < d.entries@.len() ==> (#[trigger] d.entries@[i]).content_end_line == if i + 1 < d.entries@.len() {
                d.entries@[i + 1].heading_line as int
            } else {
                line_spans(source.text()).len() as int + 1
            },
            forall|i: int, j: int| 0 <= i < j < d.entries@.len() ==> d.entries@[i].heading_line < d.entries@[j].heading_line,
            d.todo_keywords.view_kw() == keywords_spec(d.file_keywords),
            (d.priority_range.highest, d.priority_range.lowest, d.priority_range.default) == priority_spec(d.file_keywords),
            d.file_keywords.get_spec("FILETAGS"@) matches Some(v) ==> strings_view(d.filetags@) == filetags_spec(v),
            d.file_keywords.get_spec("FILETAGS"@) is None ==> d.filetags@.len() == 0,
            lines_fit(d, source.text()),
            d.entries@.len() == heading_lines(source.text()).len(),
            forall|i: int| 0 <= i < d.entries@.len() ==> (#[trigger] d.entries@[i]).heading_line == heading_lines(source.text())[i] + 1,
            forall|i: int| 0 <= i < d.entries@.len() ==> entry_details(source.text(), d.entries@[i].heading_line - 1, #[trigger] d.entries@[i]),
            forall|k: Seq<char>| #[trigger] d.file_keywords.get_spec(k) == pre_keyword(source.text(), line_spans(source.text()), 0, k, None),
            forall|k: Seq<char>| #[trigger] d.file_properties.get_spec(k) == pre_property(source.text(), line_spans(source.text()), 0, k, None),
            forall|k: Seq<char>| #[trigger] d.default_properties.get_spec(k) == match d.file_keywords.get_spec("PROPERTY"@) {
                Some(v) => match default_property(v) {
                    Some((key, value)) => if k == key { Some(value) } else { None },
                    None => None,
                },
                None => None,
            },
    {
        let s = source.chars();
        let lines = line_ranges(s);
        let ghost spans = line_spans(s@);
        let n = lines.len();
        let (file_keywords, file_properties, first) = scan_preamble(s, &lines);
        let todo_kw = todo_keywords_from_file(&file_keywords);
        let kw_list = todo_kw.all();
        let pri_range = priority_range_from_file(&file_keywords);
        let filetags = parse_filetags(file_keywords.get("FILETAGS"));
        let default_properties = parse_default_properties(&file_keywords);
        let mut entries: Vec<OrgEntry> = Vec::new();
        let mut i: usize = first;
        proof {
            lemma_next_heading(s@, spans, 0);
            assert(entry_lines(entries@) =~= Seq::<int>::empty());
            assert(entry_lines(entries@) + heads_from(s@, spans, i as int) =~= heads_from(s@, spans, 0));
        }
        while i < n
            invariant
                i <= n == lines@.len() == spans.len(),
                spans == line_spans(s@),
                s@ == source.text(),
                n < usize::MAX,
                forall|j: int| 0 <= j < lines@.len() ==> (#[trigger] lines@[j]).0 as int == spans[j].0 && lines@[j].1 as int == spans[j].1,
                forall|j: int| 0 <= j < lines@.len() ==> (#[trigger] lines@[j]).0 <= lines@[j].1 <= s@.len(),
                kw_list@.map_values(|w: Vec<char>| w@) == todo_kw.all_spec(),
                tree_wf(entries@),
                forall|k: int| 0 <= k < entries@.len() ==> entry_from_line(s@, todo_kw.all_spec(), #[trigger] entries@[k])
                    && entries@[k].heading_line <= i,
                forall|k: int, l: int| 0 <= k < l < entries@.len() ==> entries@[k].heading_line < entries@[l].heading_line,
                entry_lines(entries@) + heads_from(s@, spans, i as int) == heads_from(s@, spans, 0),
            decreases n - i,
        {
            i = scan_step(s, &lines, i, &kw_list, &mut entries);
        }
        let ghost before = entries@;
        assert(entry_lines(before) =~= entry_lines(before) + heads_from(s@, spans, i as int));
        set_content_ends(&mut entries, n);
        proof {
            assert(entry_lines(entries@) =~= entry_lines(before)) by {
                assert forall|k: int| 0 <= k < entries@.len() implies #[trigger] entries@[k].heading_line == before[k].heading_line by {
                    assert(same_head(entries@[k], before[k]));
                }
            }
            assert forall|k: int| 0 <= k < entries@.len() implies (#[trigger] entries@[k]).heading_line == heads_from(s@, spans, 0)[k] + 1 by {
                assert(entry_lines(entries@)[k] == entries@[k].heading_line - 1);
            }
            assert forall|k: int| 0 <= k < entries@.len() implies entry_details(s@, entries@[k].heading_line - 1, #[trigger] entries@[k]) by {
                lemma_same_head_line(s@, todo_kw.all_spec(), entries@[k], before[k]);
                reveal(entry_from_line);
            }
            assert forall|k: int| 0 <= k < entries@.len() implies entry_from_line(s@, todo_kw.all_spec(), #[trigger] entries@[k]) by {
                lemma_same_head_line(s@, todo_kw.all_spec(), entries@[k], before[k]);
            }
            assert forall|k: int, l: int| 0 <= k < l < entries@.len() implies entries@[k].heading_line < entries@[l].heading_line by {
                assert(same_head(entries@[k], before[k]));
                assert(same_head(entries@[l], before[l]));
            }
            reveal(lines_fit);
            assert forall|k: int| 0 <= k < entries@.len() implies 1 <= (#[trigger] entries@[k]).heading_line
                < entries@[k].content_end_line <= spans.len() + 1 by {
                reveal(entry_from_line);
                if k + 1 < entries@.len() {
                    reveal(entry_from_line);
                    assert(entry_from_line(s@, todo_kw.all_spec(), entries@[k + 1]));
                }
            }
        }
        OrgDocument {
            file: source.path(),
            entries,
            file_properties,
            file_keywords,
            todo_keywords: todo_kw,
            priority_range: pri_range,
            filetags,
            default_properties,
        }
    }

    /// Whether the entries form a heading tree: each parent is the last earlier
    /// entry of a lower level, and each entry lists its children in order.
    pub open spec fn wf(&self) -> bool {
        tree_wf(self.entries@)
    }

    /// The first entry whose `ID` property is `id`.
    pub fn find_by_id(&self, id: &str) -> (r: Option<usize>)
        ensures
            r == first_with(self.entries@, "ID"@, id@),
    {
        self.find_by_property("ID", id)
    }

    /// The first entry whose `CUSTOM_ID` property is `custom_id`.
    pub fn find_by_custom_id(&self, custom_id: &str) -> (r: Option<usize>)
        ensures
            r == first_with(self.entries@, "CUSTOM_ID"@, custom_id@),
    {
        self.find_by_property("CUSTOM_ID", custom_id)
    }

    /// The first entry whose property `key` is `value`.
    fn find_by_property(&self, key: &str, value: &str) -> (r: Option<usize>)
        ensures
            r == first_with(self.entries@, key@, value@),
    {
        let mut i: usize = 0;
        while i < self.entries.len()
            invariant
                i <= self.entries@.len(),
                first_with(self.entries@, key@, value@) == first_with_from(self.entries@, key@, value@, i as int),
            decreases self.entries.len() - i,
        {
            match self.entries[i].properties.get(key) {
                Some(v) => {
                    if str_eq(v.as_str(), value) {
                        return Some(i);
                    }
                },
                None => {},
            }
            i += 1;
        }
        None
    }

    /// The titles of the ancestors of entry `entry_idx`, from the root down,
    /// ending with its own title.
    pub fn outline_path(&self, entry_idx: usize) -> (r: Vec<&str>)
        requires
            self.wf(),
            entry_idx < self.entries@.len(),
        ensures
            r@.map_values(|t: &str| t@) == titles_path(self.entries@, entry_idx as int),
        decreases entry_idx,
    {
        let _n = self.entries.len();
        proof {
            lemma_parent_before(self.entries@, entry_idx as int);
        }
        let t = self.entries[entry_idx].title.as_str();
        match self.entries[entry_idx].parent {
            Some(p) => {
                let mut v = self.outline_path(p);
                let ghost before = v@.map_values(|x: &str| x@);
                v.push(t);
                assert(v@.map_values(|x: &str| x@) =~= before + seq![t@]);
                v
            },
            None => {
                let mut v: Vec<&str> = Vec::new();
                v.push(t);
                assert(v@.map_values(|x: &str| x@) =~= seq![t@]);
                v
            },
        }
    }

    /// The tags of entry `entry_idx`, then those of its ancestors up to the
    /// root, then the file tags, each tag once, in the order first met.
    pub fn inherited_tags(&self, entry_idx: usize) -> (r: Vec<&str>)
        requires
            self.wf(),
            entry_idx < self.entries@.len(),
        ensures
            r@.map_values(|t: &str| t@) == dedup(tags_along(self.entries@, entry_idx as int) + strings_view(self.filetags@)),
    {
        let ghost es = self.entries@;
        let _n = self.entries.len();
        let mut tags: Vec<&str> = Vec::new();
        let mut idx: Option<usize> = Some(entry_idx);
        let ghost mut acc: Seq<Seq<char>> = Seq::empty();
        loop
            invariant
                es == self.entries@,
                es.len() <= usize::MAX,
                tree_wf(es),
                idx matches Some(i) ==> i < es.len() && tags_along(es, entry_idx as int) == acc + tags_along(es, i as int),
                idx is None ==> tags_along(es, entry_idx as int) == acc,
                tags@.map_values(|t: &str| t@) == dedup(acc),
            ensures
                tags_along(es, entry_idx as int) == acc,
                tags@.map_values(|t: &str| t@) == dedup(acc),
            decreases match idx { Some(i) => i + 1, None => 0 },
        {
            match idx {
                Some(i) => {
                    proof {
                        lemma_parent_before(es, i as int);
                    }
                    let ghost before = acc;
                    push_new_tags(&mut tags, &self.entries[i].tags, Ghost(acc));
                    proof {
                        acc = acc + strings_view(es[i as int].tags@);
                        match es[i as int].parent {
                            Some(p) => {
                                assert(tags_along(es, entry_idx as int) =~= acc + tags_along(es, p as int));
                            },
                            None => {
                                assert(tags_along(es, entry_idx as int) =~= acc);
                            },
                        }
                    }
                    idx = self.entries[i].parent;
                },
                None => {
                    break;
                },
            }
        }
        push_new_tags(&mut tags, &self.filetags, Ghost(acc));
        tags
    }

    /// The property `key` of entry `entry_idx`, or else the file's default
    /// property `key`.
    pub fn property(&self, entry_idx: usize, key: &str) -> (r: Option<&str>)
        requires
            entry_idx < self.entries@.len(),
        ensures
            r matches Some(v) ==> Some(v@) == self.property_spec(entry_idx as int, key@),
            r is None ==> self.property_spec(entry_idx as int, key@) is None,
    {
        match self.entries[entry_idx].properties.get(key) {
            Some(v) => Some(v.as_str()),
            None => match self.default_properties.get(key) {
                Some(v) => Some(v.as_str()),
                None => None,
            },
        }
    }

    /// The property `key` of entry `i`, falling back to the file default.
    pub open spec fn property_spec(&self, i: int, key: Seq<char>) -> Option<Seq<char>> {
        match self.entries@[i].properties.get_spec(key) {
            Some(v) => Some(v),
            None => self.default_properties.get_spec(key),
        }
    }
}

/// Appends to `tags` each of `more` that it does not hold yet, in order.
fn push_new_tags<'a>(tags: &mut Vec<&'a str>, more: &'a Vec<String>, Ghost(acc): Ghost<Seq<Seq<char>>>)
    requires
        old(tags)@.map_values(|t: &str| t@) == dedup(acc),
    ensures
        final(tags)@.map_values(|t: &str| t@) == dedup(acc + strings_view(more@)),
{
    let mut j: usize = 0;
    while j < more.len()
        invariant
            j <= more@.len(),
            tags@.map_values(|t: &str| t@) == dedup(acc + strings_view(more@).take(j as int)),
        decreases more.len() - j,
    {
        let t = more[j].as_str();
        let mut found = false;
        let mut k: usize = 0;
        while k < tags.len()
            invariant
                k <= tags@.len(),
                found == exists|m: int| 0 <= m < k && (#[trigger] tags@[m])@ == t@,
            decreases tags.len() - k,
        {
            if str_eq(tags[k], t) {
                found = true;
            }
            k += 1;
        }
        let ghost prev = acc + strings_view(more@).take(j as int);
        let ghost tv = tags@.map_values(|x: &str| x@);
        proof {
            assert(acc + strings_view(more@).take(j + 1) =~= prev.push(t@));
            assert(prev.push(t@).drop_last() =~= prev);
            assert(prev.push(t@).last() == t@);
            if found {
                let m = choose|m: int| 0 <= m < k && (#[trigger] tags@[m])@ == t@;
                assert(tv[m] == t@);
                assert(tv.contains(t@));
            } else {
                assert forall|m: int| 0 <= m < tv.len() implies tv[m] != t@ by {
                    assert(tv[m] == tags@[m]@);
                }
                assert(!tv.contains(t@));
            }
        }
        if !found {
            tags.push(t);
            proof {
                assert(tags@.map_values(|x: &str| x@) =~= tv.push(t@));
            }
        }
        j += 1;
    }
    proof {
        assert(strings_view(more@).take(more@.len() as int) =~= strings_view(more@));
    }
}

/// The first entry of `es` from index `i` on whose property `key` is `value`.
pub open spec fn first_with_from(es: Seq<OrgEntry>, key: Seq<char>, value: Seq<char>, i: int) -> Option<usize>
    decreases es.len() - i,
{
    if i < 0 || i >= es.len() {
        None
    } else if es[i].properties.get_spec(key) == Some(value) {
        Some(i as usize)
    } else {
        first_with_from(es, key, value, i + 1)
    }
}

/// The first entry of `es` whose property `key` is `value`.
pub open spec fn first_with(es: Seq<OrgEntry>, key: Seq<char>, value: Seq<char>) -> Option<usize> {
    first_with_from(es, key, value, 0)
}

/// The titles from the root of the tree down to entry `i`.
pub open spec fn titles_path(es: Seq<OrgEntry>, i: int) -> Seq<Seq<char>>
    decreases i,
{
    if i < 0 {
        Seq::empty()
    } else {
        match es[i].parent {
            Some(p) => if p < i {
                titles_path(es, p as int) + seq![es[i].title@]
            } else {
                seq![es[i].title@]
            },
            None => seq![es[i].title@],
        }
    }
}

/// The tags of entry `i`, then those of its parent, and so on up to the root.
pub open spec fn tags_along(es: Seq<OrgEntry>, i: int) -> Seq<Seq<char>>
    decreases i,
{
    if i < 0 {
        Seq::empty()
    } else {
        strings_view(es[i].tags@) + match es[i].parent {
            Some(p) => if p < i {
                tags_along(es, p as int)
            } else {
                Seq::empty()
            },
            None => Seq::empty(),
        }
    }
}

/// `s` with each element kept only at its first occurrence.
pub open spec fn dedup(s: Seq<Seq<char>>) -> Seq<Seq<char>>
    decreases s.len(),
{
    if s.len() == 0 {
        s
    } else {
        let d = dedup(s.drop_last());
        if d.contains(s.last()) {
            d
        } else {
            d.push(s.last())
        }
    }
}

pub proof fn lemma_parent_before(es: Seq<OrgEntry>, i: int)
    requires
        tree_wf(es),
        0 <= i < es.len(),
        es.len() <= usize::MAX,
    ensures
        es[i].parent matches Some(p) ==> p < i,
{
    lemma_last_smaller_bound(es, es[i].level, i);
}

pub proof fn lemma_first_with_bound(es: Seq<OrgEntry>, key: Seq<char>, value: Seq<char>)
    requires
        es.len() <= usize::MAX,
    ensures
        first_with(es, key, value) matches Some(i) ==> i < es.len(),
{
    lemma_first_with_from_bound(es, key, value, 0);
}

proof fn lemma_first_with_from_bound(es: Seq<OrgEntry>, key: Seq<char>, value: Seq<char>, i: int)
    requires
        es.len() <= usize::MAX,
    ensures
        first_with_from(es, key, value, i) matches Some(k) ==> i <= k < es.len(),
    decreases es.len() - i,
{
    if 0 <= i < es.len() && es[i].properties.get_spec(key) != Some(value) {
        lemma_first_with_from_bound(es, key, value, i + 1);
    }
}

/// Each child of `p` among the first `n` entries comes after `p`, has `p` as
/// parent, and lies among them.
pub proof fn lemma_kids_members(es: Seq<OrgEntry>, p: int, n: int)
    requires
        0 <= n <= es.len(),
        es.len() <= usize::MAX,
    ensures
        forall|j: int| 0 <= j < kids(es, p, n).len() ==> (#[trigger] kids(es, p, n)[j]) < n
            && es[kids(es, p, n)[j] as int].parent == Some(p as usize),
    decreases n,
{
    if n > 0 {
        lemma_kids_members(es, p, n - 1);
        let k0 = kids(es, p, n - 1);
        assert forall|j: int| 0 <= j < kids(es, p, n).len() implies (#[trigger] kids(es, p, n)[j]) < n
            && es[kids(es, p, n)[j] as int].parent == Some(p as usize) by {
            if j < k0.len() {
                assert(kids(es, p, n)[j] == k0[j]);
            }
        }
    }
}

/// In a heading tree, the children of entry `i` are entries after it.
pub proof fn lemma_children_after(es: Seq<OrgEntry>, i: int)
    requires
        tree_wf(es),
        0 <= i < es.len(),
        es.len() <= usize::MAX,
    ensures
        forall|j: int| 0 <= j < es[i].children@.len() ==> i < (#[trigger] es[i].children@[j]) < es.len(),
{
    lemma_kids_members(es, i, es.len() as int);
    assert forall|j: int| 0 <= j < es[i].children@.len() implies i < (#[trigger] es[i].children@[j]) < es.len() by {
        let c = es[i].children@[j] as int;
        lemma_last_smaller_bound(es, es[c].level, c);
    }
}

} // verus!
