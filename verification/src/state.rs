//! Changing the TODO state of entries, and the current time as an org
//! timestamp.
use vstd::prelude::*;
use crate::diagnostic::{Fix, Span};
use crate::document::{lemma_lines_fit, lines_fit, OrgDocument};
use crate::formatter::apply_fixes;
use crate::lines::{fix_view, fixes_view, lemma_spans_ordered, line_ranges, line_spans};
use crate::rules::heading::{is_one_of, parse_heading_at, parse_heading_spec, strings_view, HeadingParts, HeadingView};
use crate::runner::{apply_view, chained, fsort, lemma_chained_fit, lemma_spliced_view, sort_fixes};
use crate::source::SourceFile;
use crate::text::{
    contains, dec_padded, find, find_char, push_all, push_dec_padded, push_str, starts_with, string_from, trim, trim_start,
};

verus! {

// ---------------------------------------------------------------------------
// The current time
// ---------------------------------------------------------------------------
#[verifier::external_type_specification]
#[verifier::external_body]
pub struct ExSystemTime(std::time::SystemTime);

/// Calls `std::time::SystemTime::now`. Nothing is promised of the result:
/// it is the clock's reading.
#[verifier::external_body]
pub(crate) fn system_now() -> std::time::SystemTime {
    std::time::SystemTime::now()
}

/// Calls `SystemTime::duration_since(UNIX_EPOCH)` and gives its whole
/// seconds, or 0 for a time before the epoch. Nothing is promised of the
/// result: it depends on the clock reading `t`.
#[verifier::external_body]
pub(crate) fn seconds_since_epoch(t: &std::time::SystemTime) -> u64 {
    t.duration_since(std::time::UNIX_EPOCH).unwrap_or_default().as_secs()
}

/// Rust's integer division, which rounds toward zero.
pub open spec fn tdiv(a: int, b: int) -> int {
    if a >= 0 {
        a / b
    } else {
        -((-a) / b)
    }
}

/// The day of the week, 0 for Monday, by Sakamoto's method.
pub open spec fn weekday(year: int, month: int, day: int) -> int {
    let t = seq![0int, 3, 2, 5, 0, 3, 5, 1, 4, 6, 2, 4];
    let y = if month < 3 {
        year - 1
    } else {
        year
    };
    let dow = (y + tdiv(y, 4) - tdiv(y, 100) + tdiv(y, 400) + t[month - 1] + day) % 7;
    (dow + 6) % 7
}

pub open spec fn day_name(d: int) -> Seq<char> {
    if d == 0 {
        "Mon"@
    } else if d == 1 {
        "Tue"@
    } else if d == 2 {
        "Wed"@
    } else if d == 3 {
        "Thu"@
    } else if d == 4 {
        "Fri"@
    } else if d == 5 {
        "Sat"@
    } else {
        "Sun"@
    }
}

/// The civil date (year, month, day) of the day `days` after 1970-01-01,
/// by Hinnant's algorithm; the year is kept to 16 bits as the timestamp
/// text writes it.
pub open spec fn civil_date(days: int) -> (int, int, int) {
    let z = days + 719468;
    let era = z / 146097;
    let doe = z - era * 146097;
    let yoe = (doe - doe / 1460 + doe / 36524 - doe / 146096) / 365;
    let y = yoe + era * 400;
    let doy = doe - (365 * yoe + yoe / 4 - yoe / 100);
    let mp = (5 * doy + 2) / 153;
    let d = doy - (153 * mp + 2) / 5 + 1;
    let month = if mp < 10 {
        mp + 3
    } else {
        mp - 9
    };
    let year = if month <= 2 {
        y + 1
    } else {
        y
    };
    ((year as u16) as int, month, d)
}

/// `YYYY-MM-DD Day HH:MM` for `secs` seconds after the Unix epoch, in UTC.
pub open spec fn timestamp_spec(secs: int) -> Seq<char> {
    let days = secs / 86400;
    let tod = secs % 86400;
    let (year, month, day) = civil_date(days);
    dec_padded(year as nat, 4) + "-"@ + dec_padded(month as nat, 2) + "-"@ + dec_padded(day as nat, 2) + " "@
        + day_name(weekday(year, month, day)) + " "@ + dec_padded((tod / 3600) as nat, 2) + ":"@ + dec_padded(
        ((tod % 3600) / 60) as nat,
        2,
    )
}

proof fn lemma_civil_bounds(days: int)
    requires
        0 <= days <= 0x1_0000_0000_0000,
    ensures
        1 <= civil_date(days).1 <= 12,
        1 <= civil_date(days).2 <= 31,
        0 <= civil_date(days).0 <= 0xffff,
{
    let z = days + 719468;
    let era = z / 146097;
    let doe = z - era * 146097;
    assert(0 <= doe < 146097);
    let yoe = (doe - doe / 1460 + doe / 36524 - doe / 146096) / 365;
    assert(0 <= yoe <= 399);
    let doy = doe - (365 * yoe + yoe / 4 - yoe / 100);
    assert(0 <= doy <= 365);
    let mp = (5 * doy + 2) / 153;
    assert(0 <= mp <= 11);
    let d = doy - (153 * mp + 2) / 5 + 1;
    assert(1 <= d <= 31);
}

/// The timestamp text of `secs` seconds after the Unix epoch.
pub fn timestamp_text(secs: u64) -> (r: String)
    requires
        secs <= 0x7fff_ffff_ffff_ffff,
    ensures
        r@ == timestamp_spec(secs as int),
{
    let days: u64 = secs / 86400;
    let tod: u64 = secs % 86400;
    let h: u64 = tod / 3600;
    let m: u64 = (tod % 3600) / 60;
    let z: u64 = days + 719468;
    let era: u64 = z / 146097;
    let doe: u64 = z - era * 146097;
    let yoe: u64 = (doe - doe / 1460 + doe / 36524 - doe / 146096) / 365;
    let y: u64 = yoe + era * 400;
    let doy: u64 = doe - (365 * yoe + yoe / 4 - yoe / 100);
    let mp: u64 = (5 * doy + 2) / 153;
    let d: u64 = doy - (153 * mp + 2) / 5 + 1;
    let month: u64 = if mp < 10 {
        mp + 3
    } else {
        mp - 9
    };
    let year_full: u64 = if month <= 2 {
        y + 1
    } else {
        y
    };
    let year: u16 = year_full as u16;
    proof {
        lemma_civil_bounds(days as int);
    }
    let dow = day_of_week(year, month as u8, d as u8);
    let mut v: Vec<char> = Vec::new();
    push_dec_padded(&mut v, year as usize, 4);
    push_str(&mut v, "-");
    push_dec_padded(&mut v, month as usize, 2);
    push_str(&mut v, "-");
    push_dec_padded(&mut v, d as usize, 2);
    push_str(&mut v, " ");
    push_str(&mut v, day_name_of(dow));
    push_str(&mut v, " ");
    push_dec_padded(&mut v, h as usize, 2);
    push_str(&mut v, ":");
    push_dec_padded(&mut v, m as usize, 2);
    string_from(v.as_slice())
}

fn day_name_of(d: u8) -> (r: &'static str)
    ensures
        r@ == day_name(d as int),
{
    if d == 0 {
        "Mon"
    } else if d == 1 {
        "Tue"
    } else if d == 2 {
        "Wed"
    } else if d == 3 {
        "Thu"
    } else if d == 4 {
        "Fri"
    } else if d == 5 {
        "Sat"
    } else {
        "Sun"
    }
}

fn day_of_week(year: u16, month: u8, day: u8) -> (r: u8)
    requires
        1 <= month <= 12,
    ensures
        r as int == weekday(year as int, month as int, day as int),
{
    let t: [i64; 12] = [0, 3, 2, 5, 0, 3, 5, 1, 4, 6, 2, 4];
    let y0: i64 = year as i64;
    let mm: i64 = month as i64;
    let dd: i64 = day as i64;
    let y: i64 = if mm < 3 {
        y0 - 1
    } else {
        y0
    };
    let dow: i64 = (y + y / 4 - y / 100 + y / 400 + t[(mm - 1) as usize] + dd) % 7;
    proof {
        let ts = seq![0int, 3, 2, 5, 0, 3, 5, 1, 4, 6, 2, 4];
        assert(t@[mm - 1] == ts[mm - 1]);
    }
    ((dow + 6) % 7) as u8
}

/// The current time as `YYYY-MM-DD Day HH:MM`, in UTC. It depends on the
/// clock, so nothing more is promised than that it is the text of some time.
pub fn now_timestamp() -> (r: String)
    ensures
        exists|secs: int| 0 <= secs <= 0x7fff_ffff_ffff_ffff && r@ == timestamp_spec(secs),
{
    let now = system_now();
    let mut secs = seconds_since_epoch(&now);
    if secs > 0x7fff_ffff_ffff_ffff {
        secs = 0x7fff_ffff_ffff_ffff;
    }
    timestamp_text(secs)
}

// ---------------------------------------------------------------------------
// Changing states
// ---------------------------------------------------------------------------
/// The result of a state change.
pub struct SetStateResult {
    /// The new text of the file.
    pub content: String,
    /// The number of entries changed.
    pub changed: usize,
}

/// Tags joined by `:`.
pub open spec fn join_colon(ts: Seq<Seq<char>>) -> Seq<char>
    decreases ts.len(),
{
    if ts.len() == 0 {
        Seq::empty()
    } else if ts.len() == 1 {
        ts[0]
    } else {
        join_colon(ts.drop_last()) + ":"@ + ts.last()
    }
}

/// The heading line of `h` with the keyword `state`.
pub open spec fn heading_with_state(h: HeadingView, state: Seq<char>) -> Seq<char> {
    Seq::new(h.level, |i: int| '*') + " "@ + state + (match h.priority {
        Some(p) => " [#"@ + seq![p] + "]"@,
        None => Seq::empty(),
    }) + (if h.title.len() == 0 {
        Seq::<char>::empty()
    } else {
        " "@ + h.title
    }) + (if h.tags.len() == 0 {
        Seq::<char>::empty()
    } else {
        " :"@ + join_colon(h.tags) + ":"@
    })
}

/// Line `k` of `t`, with its carriage return if it has one.
pub open spec fn raw_line(t: Seq<char>, spans: Seq<(int, int)>, k: int) -> Seq<char> {
    t.subrange(spans[k].0, spans[k].1)
}

/// The offset of line `k`, one past the text for the line after the last.
pub open spec fn line_offset(t: Seq<char>, spans: Seq<(int, int)>, k: int) -> int {
    if k < spans.len() {
        spans[k].0
    } else {
        t.len() as int + 1
    }
}

pub open spec fn planning_start(x: Seq<char>) -> bool {
    starts_with(x, "SCHEDULED:"@) || starts_with(x, "DEADLINE:"@) || starts_with(x, "CLOSED:"@)
}

/// The fix adding `CLOSED: [now]` after the heading on line `nx - 1`: at
/// the front of its planning line when there is one without `CLOSED:`, as a
/// new line otherwise.
pub open spec fn add_closed_fix(t: Seq<char>, spans: Seq<(int, int)>, nx: int, now: Seq<char>) -> Seq<(int, int, Seq<char>)> {
    if nx < spans.len() && planning_start(trim(raw_line(t, spans, nx))) {
        if contains(trim(raw_line(t, spans, nx)), "CLOSED:"@) {
            Seq::empty()
        } else {
            let line = raw_line(t, spans, nx);
            let indent = line.len() - trim_start(line).len();
            seq![(spans[nx].0, spans[nx].0, line.take(indent) + "CLOSED: ["@ + now + "] "@)]
        }
    } else {
        let off = line_offset(t, spans, nx);
        seq![(off, off, "CLOSED: ["@ + now + "]\n"@)]
    }
}

/// The fix removing `CLOSED:` from the planning line `nx`: the whole line
/// when it plans nothing else, else the `CLOSED: [...]` part and one space.
pub open spec fn remove_closed_fix(t: Seq<char>, spans: Seq<(int, int)>, nx: int) -> Seq<(int, int, Seq<char>)> {
    if nx >= spans.len() || !contains(trim(raw_line(t, spans, nx)), "CLOSED:"@) {
        Seq::empty()
    } else {
        let next = trim(raw_line(t, spans, nx));
        let ls = spans[nx].0;
        let line = raw_line(t, spans, nx);
        if !(contains(next, "SCHEDULED:"@) || contains(next, "DEADLINE:"@)) {
            seq![(ls, spans[nx].1 + 1, Seq::<char>::empty())]
        } else {
            match find(line, "CLOSED:"@) {
                Some(pos) => match find_char(line.skip(pos), ']') {
                    Some(be) => {
                        let re0 = ls + pos + be + 1;
                        let re = if re0 < ls + line.len() && t[re0] == ' ' {
                            re0 + 1
                        } else {
                            re0
                        };
                        seq![(ls + pos, re, Seq::<char>::empty())]
                    },
                    None => Seq::empty(),
                },
                None => Seq::empty(),
            }
        }
    }
}

/// The fixes for entry `idx`: its heading with the new keyword, then the
/// `CLOSED:` change when `add_closed` holds and the entry moves between an
/// open and a done state.
pub open spec fn state_entry_fixes(
    t: Seq<char>,
    doc: OrgDocument,
    idx: int,
    state: Seq<char>,
    add_closed: bool,
    now: Seq<char>,
) -> Seq<(int, int, Seq<char>)> {
    let spans = line_spans(t);
    let hl = doc.entries@[idx].heading_line as int;
    let line = raw_line(t, spans, hl - 1);
    let done = strings_view(doc.todo_keywords.done@);
    match parse_heading_spec(line, doc.todo_keywords.all_spec()) {
        None => Seq::empty(),
        Some(h) => if h.keyword == Some(state) {
            Seq::empty()
        } else {
            let hf = seq![(spans[hl - 1].0, spans[hl - 1].0 + line.len(), heading_with_state(h, state))];
            let was_done = h.keyword matches Some(k) && is_one_of(done, k);
            let new_done = is_one_of(done, state);
            if add_closed && new_done && !was_done {
                hf + add_closed_fix(t, spans, hl, now)
            } else if add_closed && !new_done && was_done {
                hf + remove_closed_fix(t, spans, hl)
            } else {
                hf
            }
        },
    }
}

/// The fixes for the entries `idxs[..k]`.
pub open spec fn state_fixes(
    t: Seq<char>,
    doc: OrgDocument,
    idxs: Seq<usize>,
    state: Seq<char>,
    add_closed: bool,
    now: Seq<char>,
    k: int,
) -> Seq<(int, int, Seq<char>)>
    decreases k,
{
    if k <= 0 || k > idxs.len() {
        Seq::empty()
    } else {
        state_fixes(t, doc, idxs, state, add_closed, now, k - 1) + state_entry_fixes(
            t,
            doc,
            idxs[k - 1] as int,
            state,
            add_closed,
            now,
        )
    }
}

/// Fixes lying in a text of length `len`, each starting at or after the end
/// of the one before.
pub open spec fn views_fit(len: int, fs: Seq<(int, int, Seq<char>)>) -> bool {
    &&& forall|i: int| 0 <= i < fs.len() ==> #[trigger] fs[i].0 <= len && fs[i].1 <= len
    &&& forall|i: int| 0 < i < fs.len() ==> #[trigger] fs[i].0 >= fs[i - 1].1
    &&& forall|i: int| 0 <= i < fs.len() ==> 0 <= #[trigger] fs[i].0
}

/// The entries a state change looks at: the ones given, else all of them.
pub open spec fn chosen(doc: OrgDocument, entry_indices: Option<Seq<usize>>) -> Seq<usize> {
    match entry_indices {
        Some(v) => v,
        None => Seq::new(doc.entries@.len(), |i: int| i as usize),
    }
}

pub open spec fn lines_of(s: Seq<char>, lines: Seq<(usize, usize)>) -> bool {
    &&& lines.len() == line_spans(s).len()
    &&& forall|j: int| 0 <= j < lines.len() ==> (#[trigger] lines[j]).0 as int == line_spans(s)[j].0 && lines[j].1 as int
        == line_spans(s)[j].1
    &&& forall|j: int| 0 <= j < lines.len() ==> (#[trigger] lines[j]).0 <= lines[j].1 <= s.len()
}

fn closed_insert(s: &[char], lines: &Vec<(usize, usize)>, nx: usize, now: &str) -> (r: Vec<Fix>)
    requires
        lines_of(s@, lines@),
        nx <= lines@.len(),
        s@.len() < usize::MAX - 1,
    ensures
        fixes_view(r@) == add_closed_fix(s@, line_spans(s@), nx as int, now@),
{
    let ghost spans = line_spans(s@);
    let mut out: Vec<Fix> = Vec::new();
    if nx < lines.len() {
        let (la, le) = lines[nx];
        let (ta, tb) = crate::text::trim_range(s, la, le);
        if crate::text::starts_with_str(s, ta, tb, "SCHEDULED:") || crate::text::starts_with_str(s, ta, tb, "DEADLINE:")
            || crate::text::starts_with_str(s, ta, tb, "CLOSED:") {
            if crate::text::contains_str(s, ta, tb, "CLOSED:") {
                return out;
            }
            let a = crate::text::skip_ws(s, la, le);
            let mut m: Vec<char> = Vec::new();
            push_all(&mut m, &s[la..a]);
            push_str(&mut m, "CLOSED: [");
            push_str(&mut m, now);
            push_str(&mut m, "] ");
            let ghost line = raw_line(s@, spans, nx as int);
            assert(line.take(line.len() - trim_start(line).len()) =~= s@.subrange(la as int, a as int));
            out.push(Fix::new(Span::new(la, la), string_from(m.as_slice())));
            assert(fixes_view(out@) =~= add_closed_fix(s@, spans, nx as int, now@));
            return out;
        }
    }
    let off = if nx < lines.len() {
        lines[nx].0
    } else {
        s.len() + 1
    };
    let mut m: Vec<char> = Vec::new();
    push_str(&mut m, "CLOSED: [");
    push_str(&mut m, now);
    push_str(&mut m, "]\n");
    out.push(Fix::new(Span::new(off, off), string_from(m.as_slice())));
    assert(fixes_view(out@) =~= add_closed_fix(s@, spans, nx as int, now@));
    out
}

fn closed_remove(s: &[char], lines: &Vec<(usize, usize)>, nx: usize) -> (r: Vec<Fix>)
    requires
        lines_of(s@, lines@),
        nx <= lines@.len(),
        s@.len() < usize::MAX - 1,
    ensures
        fixes_view(r@) == remove_closed_fix(s@, line_spans(s@), nx as int),
{
    let ghost spans = line_spans(s@);
    let mut out: Vec<Fix> = Vec::new();
    if nx >= lines.len() {
        return out;
    }
    let (la, le) = lines[nx];
    let (ta, tb) = crate::text::trim_range(s, la, le);
    if !crate::text::contains_str(s, ta, tb, "CLOSED:") {
        return out;
    }
    if !(crate::text::contains_str(s, ta, tb, "SCHEDULED:") || crate::text::contains_str(s, ta, tb, "DEADLINE:")) {
        out.push(Fix::new(Span::new(la, le + 1), String::new()));
        assert(fixes_view(out@) =~= remove_closed_fix(s@, spans, nx as int));
        return out;
    }
    match crate::text::find_str(s, la, le, "CLOSED:") {
        Some(k) => {
            assert(s@.subrange(la as int, le as int).skip(k - la) =~= s@.subrange(k as int, le as int));
            match crate::text::find_char_at(s, k, le, ']') {
                Some(b) => {
                    let re0 = b + 1;
                    let re = if re0 < le && s[re0] == ' ' {
                        re0 + 1
                    } else {
                        re0
                    };
                    out.push(Fix::new(Span::new(k, re), String::new()));
                    assert(fixes_view(out@) =~= remove_closed_fix(s@, spans, nx as int));
                },
                None => {},
            }
        },
        None => {},
    }
    out
}

/// Appends the strings of `v` joined by `:`.
pub fn push_joined_colon(m: &mut Vec<char>, v: &Vec<String>)
    ensures
        final(m)@ == old(m)@ + join_colon(v@.map_values(|x: String| x@)),
{
    let ghost mid = m@;
    let ghost tv = v@.map_values(|x: String| x@);
    let mut j: usize = 0;
    assert(tv.take(0) =~= Seq::<Seq<char>>::empty());
    while j < v.len()
        invariant
            j <= v@.len(),
            tv == v@.map_values(|x: String| x@),
            m@ == mid + join_colon(tv.take(j as int)),
        decreases v.len() - j,
    {
        assert(tv.take(j + 1).drop_last() =~= tv.take(j as int));
        assert(tv.take(j + 1).last() == v@[j as int]@);
        if j > 0 {
            push_str(m, ":");
        }
        push_str(m, v[j].as_str());
        proof {
            if j == 0 {
                assert(tv.take(1) =~= seq![v@[0]@]);
            }
        }
        assert(m@ =~= mid + join_colon(tv.take(j + 1)));
        j += 1;
    }
    assert(tv.take(v@.len() as int) =~= tv);
}

fn push_heading(m: &mut Vec<char>, h: &HeadingParts, state: &str)
    ensures
        final(m)@ == old(m)@ + heading_with_state(h.view_parts(), state@),
{
    let ghost hv = h.view_parts();
    let ghost start = m@;
    let mut i: usize = 0;
    while i < h.level
        invariant
            i <= h.level,
            m@ == start + Seq::new(i as nat, |k: int| '*'),
        decreases h.level - i,
    {
        m.push('*');
        i += 1;
        assert(m@ =~= start + Seq::new(i as nat, |k: int| '*'));
    }
    push_str(m, " ");
    push_str(m, state);
    let ghost a = m@;
    assert(a =~= start + (Seq::new(hv.level, |i: int| '*') + " "@ + state@));
    match h.priority {
        Some(p) => {
            push_str(m, " [#");
            m.push(p);
            push_str(m, "]");
        },
        None => {},
    }
    let ghost pr = match hv.priority {
        Some(p) => " [#"@ + seq![p] + "]"@,
        None => Seq::empty(),
    };
    assert(m@ =~= a + pr);
    let ghost b = m@;
    if h.title.as_str().unicode_len() > 0 {
        push_str(m, " ");
        push_str(m, h.title.as_str());
    }
    let ghost ti = if hv.title.len() == 0 {
        Seq::<char>::empty()
    } else {
        " "@ + hv.title
    };
    assert(m@ =~= b + ti);
    let ghost c = m@;
    if h.tags.len() > 0 {
        push_str(m, " :");
        push_joined_colon(m, &h.tags);
        push_str(m, ":");
    }
    let ghost tg = if hv.tags.len() == 0 {
        Seq::<char>::empty()
    } else {
        " :"@ + join_colon(hv.tags) + ":"@
    };
    assert(m@ =~= c + tg);
    assert(heading_with_state(hv, state@) =~= Seq::new(hv.level, |i: int| '*') + " "@ + state@ + pr + ti + tg);
    assert(final(m)@ =~= old(m)@ + heading_with_state(hv, state@));
}

/// The number of fixes that change something: a non-empty span or replacement.
pub open spec fn effective(fs: Seq<(int, int, Seq<char>)>) -> nat
    decreases fs.len(),
{
    if fs.len() == 0 {
        0
    } else {
        effective(fs.drop_last()) + if fs.last().0 != fs.last().1 || fs.last().2.len() > 0 {
            1nat
        } else {
            0nat
        }
    }
}

/// Whether the state-change fixes, in the order of their offsets, fit the
/// text without overlapping, for every time stamp.
pub open spec fn state_fits(t: Seq<char>, doc: OrgDocument, idxs: Seq<usize>, state: Seq<char>, add_closed: bool) -> bool {
    forall|now: Seq<char>| views_fit(t.len() as int, fsort(#[trigger] state_fixes(t, doc, idxs, state, add_closed, now, idxs.len() as int)))
}

pub open spec fn opt_seq(o: Option<&[usize]>) -> Option<Seq<usize>> {
    match o {
        Some(v) => Some(v@),
        None => None,
    }
}

/// Changes the TODO keyword of the chosen entries to `new_state`, `now`
/// being the time written in a `CLOSED:` stamp. Entries already in that
/// state, and lines that are no heading, are left alone. With `add_closed`,
/// an entry moving from an open to a done state gets `CLOSED: [now]`, and
/// one moving back loses its `CLOSED:`. The edits are applied in the order
/// of their offsets. `None` when nothing changes.
pub fn set_state_at(
    source: &SourceFile,
    doc: &OrgDocument,
    entry_indices: Option<&[usize]>,
    new_state: &str,
    add_closed: bool,
    now: &str,
) -> (r: Option<SetStateResult>)
    requires
        lines_fit(*doc, source.text()),
        forall|k: int| 0 <= k < chosen(*doc, opt_seq(entry_indices)).len() ==> (#[trigger] chosen(*doc, opt_seq(entry_indices))[k])
            < doc.entries@.len(),
        views_fit(
            source.text().len() as int,
            fsort(
                state_fixes(
                    source.text(),
                    *doc,
                    chosen(*doc, opt_seq(entry_indices)),
                    new_state@,
                    add_closed,
                    now@,
                    chosen(*doc, opt_seq(entry_indices)).len() as int,
                ),
            ),
        ),
    ensures
        ({
            let idxs = chosen(*doc, opt_seq(entry_indices));
            let fs = state_fixes(source.text(), *doc, idxs, new_state@, add_closed, now@, idxs.len() as int);
            &&& r is None <==> fs.len() == 0
            &&& r matches Some(res) ==> res.content@ == apply_view(source.text(), fsort(fs), 0) && res.changed == if effective(fs) < idxs.len() {
                effective(fs)
            } else {
                idxs.len()
            }
        }),
{
    let s = source.chars();
    let lines = line_ranges(s);
    let ghost t = s@;
    let ghost spans = line_spans(t);
    let kw_list = doc.todo_keywords.all();
    let indices: Vec<usize> = match entry_indices {
        Some(v) => {
            let mut w: Vec<usize> = Vec::new();
            let mut q: usize = 0;
            while q < v.len()
                invariant
                    q <= v@.len(),
                    w@ == v@.take(q as int),
                decreases v.len() - q,
            {
                w.push(v[q]);
                q += 1;
                assert(w@ =~= v@.take(q as int));
            }
            assert(v@.take(v@.len() as int) =~= v@);
            w
        },
        None => {
            let mut w: Vec<usize> = Vec::new();
            let mut q: usize = 0;
            while q < doc.entries.len()
                invariant
                    q <= doc.entries@.len(),
                    w@ == Seq::new(q as nat, |i: int| i as usize),
                decreases doc.entries.len() - q,
            {
                w.push(q);
                q += 1;
                assert(w@ =~= Seq::new(q as nat, |i: int| i as usize));
            }
            w
        },
    };
    let ghost idxs = chosen(*doc, opt_seq(entry_indices));
    assert(indices@ == idxs);
    let ghost all = state_fixes(t, *doc, idxs, new_state@, add_closed, now@, idxs.len() as int);
    let is_new_done = doc.todo_keywords.is_done(new_state);
    let mut fixes: Vec<Fix> = Vec::new();
    let mut k: usize = 0;
    while k < indices.len()
        invariant
            k <= indices@.len() == idxs.len(),
            indices@ == idxs,
            t == s@,
            t == source.text(),
            t.len() < usize::MAX - 1,
            spans == line_spans(t),
            lines_of(t, lines@),
            lines_fit(*doc, t),
            kw_list@.map_values(|w: Vec<char>| w@) == doc.todo_keywords.all_spec(),
            is_new_done == is_one_of(strings_view(doc.todo_keywords.done@), new_state@),
            forall|q: int| 0 <= q < idxs.len() ==> (#[trigger] idxs[q]) < doc.entries@.len(),
            all == state_fixes(t, *doc, idxs, new_state@, add_closed, now@, idxs.len() as int),
            fixes_view(fixes@) == state_fixes(t, *doc, idxs, new_state@, add_closed, now@, k as int),
        decreases indices.len() - k,
    {
        let idx = indices[k];
        assert(idxs[k as int] == idx);
        proof {
            lemma_lines_fit(*doc, t, idx as int);
        }
        let e = &doc.entries[idx];
        let h = e.heading_line - 1;
        let (la, le) = lines[h];
        let ghost before = fixes_view(fixes@);
        match parse_heading_at(s, la, le, kw_list.as_slice()) {
            None => {},
            Some(parts) => {
                let same = match &parts.keyword {
                    Some(kw) => crate::text::str_eq(kw.as_str(), new_state),
                    None => false,
                };
                if !same {
                    let mut m: Vec<char> = Vec::new();
                    push_heading(&mut m, &parts, new_state);
                    fixes.push(Fix::new(Span::new(la, le), string_from(m.as_slice())));
                    let was_done = match &parts.keyword {
                        Some(kw) => doc.todo_keywords.is_done(kw.as_str()),
                        None => false,
                    };
                    if add_closed && is_new_done && !was_done {
                        let mut more = closed_insert(s, &lines, e.heading_line, now);
                        fixes.append(&mut more);
                    } else if add_closed && !is_new_done && was_done {
                        let mut more = closed_remove(s, &lines, e.heading_line);
                        fixes.append(&mut more);
                    }
                }
            },
        }
        assert(fixes_view(fixes@) =~= before + state_entry_fixes(t, *doc, idx as int, new_state@, add_closed, now@));
        k += 1;
    }
    if fixes.len() == 0 {
        return None;
    }
    let ghost fv = fixes_view(fixes@);
    let mut changed: usize = 0;
    let mut q: usize = 0;
    assert(fv.take(0) =~= Seq::<(int, int, Seq<char>)>::empty());
    while q < fixes.len()
        invariant
            q <= fixes@.len(),
            fv == fixes_view(fixes@),
            changed == effective(fv.take(q as int)),
            changed <= q,
        decreases fixes.len() - q,
    {
        assert(fv.take(q + 1).drop_last() =~= fv.take(q as int));
        assert(fv.take(q + 1).last() == fix_view(fixes@[q as int]));
        let f = &fixes[q];
        if f.span.start != f.span.end || f.replacement.as_str().unicode_len() > 0 {
            changed += 1;
        }
        q += 1;
    }
    assert(fv.take(fixes@.len() as int) =~= fv);
    let n_idx = indices.len();
    let changed = if changed < n_idx {
        changed
    } else {
        n_idx
    };
    assert(fv == all);
    let sorted = sort_fixes(fixes);
    let ghost sv = fsort(fv);
    proof {
        assert(views_fit(t.len() as int, sv));
        assert(chained(t.len() as int, sorted@, 0)) by {
            assert forall|i: int| 0 <= i < sorted@.len() implies (#[trigger] sorted@[i]).span.start <= t.len() && sorted@[i].span.end
                <= t.len() by {
                assert(sv[i] == fix_view(sorted@[i]));
                assert(sv[i].0 <= t.len() && sv[i].1 <= t.len());
            }
            assert forall|i: int| 0 < i < sorted@.len() implies (#[trigger] sorted@[i]).span.start >= sorted@[i - 1].span.end by {
                assert(sv[i] == fix_view(sorted@[i]));
                assert(sv[i - 1] == fix_view(sorted@[i - 1]));
                assert(sv[i].0 >= sv[i - 1].1);
            }
            if sorted@.len() > 0 {
                assert(sv[0] == fix_view(sorted@[0]));
                assert(sv[0].0 >= 0);
            }
        }
        lemma_chained_fit(t.len() as int, sorted@, 0);
        lemma_spliced_view(t, sorted@, 0);
    }
    let content = apply_fixes(source.content(), sorted.as_slice());
    Some(SetStateResult { content, changed })
}

/// Changes the TODO keyword of the chosen entries, stamping `CLOSED:` with
/// the current time; as [`set_state_at`] with the time stamp of some instant.
pub fn set_state(
    source: &SourceFile,
    doc: &OrgDocument,
    entry_indices: Option<&[usize]>,
    new_state: &str,
    add_closed: bool,
) -> (r: Option<SetStateResult>)
    requires
        lines_fit(*doc, source.text()),
        forall|k: int| 0 <= k < chosen(*doc, opt_seq(entry_indices)).len() ==> (#[trigger] chosen(*doc, opt_seq(entry_indices))[k])
            < doc.entries@.len(),
        state_fits(source.text(), *doc, chosen(*doc, opt_seq(entry_indices)), new_state@, add_closed),
    ensures
        exists|secs: int|
            0 <= secs <= 0x7fff_ffff_ffff_ffff && #[trigger] state_outcome(
                source.text(),
                *doc,
                opt_seq(entry_indices),
                new_state@,
                add_closed,
                timestamp_spec(secs),
                r,
            ),
{
    let now = now_timestamp();
    let r = set_state_at(source, doc, entry_indices, new_state, add_closed, now.as_str());
    let ghost secs = choose|secs: int| 0 <= secs <= 0x7fff_ffff_ffff_ffff && now@ == timestamp_spec(secs);
    assert(state_outcome(source.text(), *doc, opt_seq(entry_indices), new_state@, add_closed, timestamp_spec(secs), r));
    r
}

/// Whether `r` is what [`set_state_at`] gives with the time stamp `now`.
pub open spec fn state_outcome(
    t: Seq<char>,
    doc: OrgDocument,
    entry_indices: Option<Seq<usize>>,
    state: Seq<char>,
    add_closed: bool,
    now: Seq<char>,
    r: Option<SetStateResult>,
) -> bool {
    let idxs = chosen(doc, entry_indices);
    let fs = state_fixes(t, doc, idxs, state, add_closed, now, idxs.len() as int);
    &&& r is None <==> fs.len() == 0
    &&& r matches Some(res) ==> res.content@ == apply_view(t, fsort(fs), 0) && res.changed == if effective(fs) < idxs.len() {
        effective(fs)
    } else {
        idxs.len()
    }
}


/// Whether `w` is written in `line` at position `q`.
pub open spec fn occurs_at(line: Seq<char>, w: Seq<char>, q: int) -> bool {
    0 <= q && q + w.len() <= line.len() && line.subrange(q, q + w.len()) == w
}

proof fn lemma_plan_word_chars(w: Seq<char>)
    requires
        w == "SCHEDULED:"@ || w == "DEADLINE:"@,
    ensures
        w.len() >= 9,
        forall|i: int| 0 <= i < w.len() ==> #[trigger] w[i] != ']' && w[i] != ' ',
        w[0] != 'C',
        forall|i: int| 0 < i < w.len() && #[trigger] w[i] == 'C' ==> i + 1 < w.len() && w[i + 1] != 'L',
{
    reveal_strlit("SCHEDULED:");
    reveal_strlit("DEADLINE:");
}

/// An occurrence of `SCHEDULED:` or `DEADLINE:` in `t` lies outside the
/// stamp `CLOSED: [...]` from `a` to its `]` at `e` (and a space), or inside
/// its brackets.
proof fn lemma_word_vs_stamp(t: Seq<char>, a: int, b: int, e: int, start: int, w: Seq<char>)
    requires
        w == "SCHEDULED:"@ || w == "DEADLINE:"@,
        0 <= start,
        start + w.len() <= t.len(),
        t.subrange(start, start + w.len()) == w,
        0 <= a,
        a + 7 <= e < b <= t.len(),
        t.subrange(a, a + 7) == "CLOSED:"@,
        t[e] == ']',
        b == e + 1 || (b == e + 2 && t[e + 1] == ' '),
    ensures
        start + w.len() <= a || start >= b || (a < start && start + w.len() <= e),
{
    reveal_strlit("CLOSED:");
    lemma_plan_word_chars(w);
    if start + w.len() > a && start < b {
        if start <= a {
            let d = a - start;
            assert(t.subrange(a, a + 7)[0] == t[a]);
            assert(t.subrange(start, start + w.len())[d] == t[a]);
            assert(w[d] == 'C');
            if d > 0 {
                assert(t.subrange(a, a + 7)[1] == t[a + 1]);
                assert(t.subrange(start, start + w.len())[d + 1] == t[a + 1]);
            }
        } else if start + w.len() > e {
            if start <= e {
                assert(t.subrange(start, start + w.len())[e - start] == t[e]);
            } else {
                assert(start == e + 1);
                assert(t.subrange(start, start + w.len())[0] == t[e + 1]);
            }
        }
    }
}

/// Reopening a done entry whose planning line also schedules it or sets a
/// deadline takes out only the `CLOSED: [...]` stamp (and one space after
/// it): the removal stays inside the line, starts at `CLOSED:`, ends at the
/// stamp's `]`, and every `SCHEDULED:` or `DEADLINE:` of the line outside
/// that stamp is kept.
pub proof fn lemma_reopen_keeps_plans(t: Seq<char>, nx: int)
    requires
        0 <= nx < line_spans(t).len(),
        contains(trim(raw_line(t, line_spans(t), nx)), "SCHEDULED:"@) || contains(trim(raw_line(t, line_spans(t), nx)), "DEADLINE:"@),
    ensures
        ({
            let spans = line_spans(t);
            let fx = remove_closed_fix(t, spans, nx);
            let ls = spans[nx].0;
            let line = raw_line(t, spans, nx);
            &&& fx.len() <= 1
            &&& fx.len() == 1 ==> ({
                let a = fx[0].0;
                let b = fx[0].1;
                let e = if t[b - 1] == ']' { b - 1 } else { b - 2 };
                &&& fx[0].2.len() == 0
                &&& ls <= a && a + 7 <= e < b <= spans[nx].1
                &&& t.subrange(a, a + 7) == "CLOSED:"@
                &&& t[e] == ']' && (b == e + 1 || (b == e + 2 && t[e + 1] == ' '))
                &&& forall|i: int| a <= i < e ==> t[i] != ']'
                &&& forall|q: int, w: Seq<char>|
                    (w == "SCHEDULED:"@ || w == "DEADLINE:"@) && #[trigger] occurs_at(line, w, q) ==> ls + q + w.len() <= a || ls + q >= b
                        || (a < ls + q && ls + q + w.len() <= e)
            })
        }),
{
    let spans = line_spans(t);
    crate::lines::lemma_line_spans_from(t, 0);
    let ls = spans[nx].0;
    let line = raw_line(t, spans, nx);
    let fx = remove_closed_fix(t, spans, nx);
    if fx.len() == 1 {
        reveal_strlit("CLOSED:");
        let pos = find(line, "CLOSED:"@)->Some_0;
        crate::text::lemma_find_bound(line, "CLOSED:"@);
        let sk = line.skip(pos);
        let be = find_char(sk, ']')->Some_0;
        crate::text::lemma_find_char_bound(sk, ']');
        let a = ls + pos;
        let e = a + be;
        let b = fx[0].1;
        assert(sk.take(7) == "CLOSED:"@);
        assert forall|k: int| 0 <= k < 7 implies t.subrange(a, a + 7)[k] == "CLOSED:"@[k] by {
            assert(t.subrange(a, a + 7)[k] == line[pos + k]);
            assert(sk.take(7)[k] == line[pos + k]);
        }
        assert(t.subrange(a, a + 7) =~= "CLOSED:"@);
        assert forall|k: int| 0 <= k < 7 implies sk[k] != ']' by {
            assert(sk.take(7)[k] == sk[k]);
        }
        assert(be >= 7);
        assert(t[e] == sk[be]);
        assert forall|i: int| a <= i < e implies t[i] != ']' by {
            assert(t[i] == sk[i - a]);
        }
        assert(t[e] == ']');
        assert forall|q: int, w: Seq<char>|
            (w == "SCHEDULED:"@ || w == "DEADLINE:"@) && #[trigger] occurs_at(line, w, q) implies ls + q + w.len() <= a || ls + q >= b
                || (a < ls + q && ls + q + w.len() <= e) by {
            assert(t.subrange(ls + q, ls + q + w.len()) =~= line.subrange(q, q + w.len()));
            if b == e + 2 {
                assert(t[e + 1] == ' ');
            }
            lemma_word_vs_stamp(t, a, b, e, ls + q, w);
        }
    }
}

} // verus!
