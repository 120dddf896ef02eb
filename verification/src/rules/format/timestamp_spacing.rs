//! F009: one space after `SCHEDULED:`, `DEADLINE:` and `CLOSED:`.
use vstd::prelude::*;
use crate::diagnostic::Fix;
use crate::lines::{fixes_view, line_fixes, line_ranges, line_spans, push_fix};
use crate::rules::{FormatContext, FormatRule};
use crate::text::{
    contains, contains_str, copy_range, find, find_str, lead_ws, push_all, skip_ws, str_chars, string_from,
    strip_cr, strip_cr_end, trim, trim_range,
};

verus! {

/// Rewrites a line holding a planning keyword so that exactly one space
/// follows each of `SCHEDULED:`, `DEADLINE:` and `CLOSED:` (first
/// occurrence each) that is followed by more text.
pub struct TimestampSpacing;

/// The line after fixing the spacing after the first occurrence of `kw`, and
/// whether it changed.
pub open spec fn respace(line: Seq<char>, kw: Seq<char>) -> (Seq<char>, bool) {
    match find(line, kw) {
        Some(p) => {
            let start = p + kw.len();
            let after = line.skip(start);
            let sp = lead_ws(after) as int;
            if sp != 1 && trim(after).len() != 0 {
                (line.take(start) + seq![' '] + after.skip(sp), true)
            } else {
                (line, false)
            }
        },
        None => (line, false),
    }
}

/// The line after fixing the spacing after each planning keyword, in turn,
/// and whether it changed.
pub open spec fn respace_all(raw: Seq<char>) -> (Seq<char>, bool) {
    let (l1, c1) = respace(raw, "SCHEDULED:"@);
    let (l2, c2) = respace(l1, "DEADLINE:"@);
    let (l3, c3) = respace(l2, "CLOSED:"@);
    (l3, c1 || c2 || c3)
}

/// The fix of line `i`: the whole line, rewritten.
pub open spec fn timestamp_line_fix(t: Seq<char>, spans: Seq<(int, int)>, i: int) -> Seq<(int, int, Seq<char>)> {
    let raw = strip_cr(t.subrange(spans[i].0, spans[i].1));
    let tr = trim(raw);
    let has = contains(tr, "SCHEDULED:"@) || contains(tr, "DEADLINE:"@) || contains(tr, "CLOSED:"@);
    let (nl, changed) = respace_all(raw);
    if has && changed {
        seq![(spans[i].0, spans[i].0 + raw.len(), nl)]
    } else {
        Seq::empty()
    }
}

fn respace_exec(line: Vec<char>, kw: &str) -> (r: (Vec<char>, bool))
    ensures
        (r.0@, r.1) == respace(line@, kw@),
{
    let l = line.as_slice();
    assert(l@.subrange(0, l@.len() as int) =~= l@);
    match find_str(l, 0, l.len(), kw) {
        Some(p) => {
            let start = p + kw.unicode_len();
            let m = skip_ws(l, start, l.len());
            let (u0, u1) = trim_range(l, start, l.len());
            assert(l@.subrange(start as int, l@.len() as int) =~= l@.skip(start as int));
            if m - start != 1 && u0 < u1 {
                let mut nl = copy_range(l, 0, start);
                nl.push(' ');
                let rest = copy_range(l, m, l.len());
                push_all(&mut nl, rest.as_slice());
                assert(l@.skip(start as int).skip(m - start) =~= l@.subrange(m as int, l@.len() as int));
                assert(nl@ =~= l@.take(start as int) + seq![' '] + l@.skip(start as int).skip(m - start));
                (nl, true)
            } else {
                (line, false)
            }
        },
        None => (line, false),
    }
}

impl FormatRule for TimestampSpacing {
    fn id(&self) -> (r: &'static str)
        ensures
            r@ == "F009"@,
    {
        "F009"
    }

    fn name(&self) -> (r: &'static str)
        ensures
            r@ == "timestamp-spacing"@,
    {
        "timestamp-spacing"
    }

    fn description(&self) -> (r: &'static str)
        ensures
            r@ == "Normalize spacing in SCHEDULED/DEADLINE/CLOSED lines"@,
    {
        "Normalize spacing in SCHEDULED/DEADLINE/CLOSED lines"
    }

    fn format(&self, ctx: &FormatContext) -> (r: Vec<Fix>)
        ensures
            fixes_view(r@) == line_fixes(
                line_spans(ctx.source.text()).len() as int,
                |i: int| timestamp_line_fix(ctx.source.text(), line_spans(ctx.source.text()), i),
            ),
    {
        let s = ctx.source.chars();
        let lines = line_ranges(s);
        let ghost t = s@;
        let ghost spans = line_spans(t);
        let ghost f = |i: int| timestamp_line_fix(t, spans, i);
        let mut out: Vec<Fix> = Vec::new();
        let mut i: usize = 0;
        while i < lines.len()
            invariant
                i <= lines@.len() == spans.len(),
                t == s@,
                t == ctx.source.text(),
                spans == line_spans(t),
                f == (|i: int| timestamp_line_fix(t, spans, i)),
                forall|j: int| 0 <= j < lines@.len() ==> (#[trigger] lines@[j]).0 as int == spans[j].0 && lines@[j].1 as int == spans[j].1,
                forall|j: int| 0 <= j < lines@.len() ==> (#[trigger] lines@[j]).0 <= lines@[j].1 <= s@.len(),
                fixes_view(out@) == line_fixes(i as int, f),
            decreases lines.len() - i,
        {
            let (a, e) = lines[i];
            let e1 = strip_cr_end(s, a, e);
            let (t0, t1) = trim_range(s, a, e1);
            if contains_str(s, t0, t1, "SCHEDULED:") || contains_str(s, t0, t1, "DEADLINE:") || contains_str(s, t0, t1, "CLOSED:") {
                let raw = copy_range(s, a, e1);
                let (l1, c1) = respace_exec(raw, "SCHEDULED:");
                let (l2, c2) = respace_exec(l1, "DEADLINE:");
                let (l3, c3) = respace_exec(l2, "CLOSED:");
                if c1 || c2 || c3 {
                    push_fix(&mut out, a, e1, string_from(l3.as_slice()));
                }
            }
            proof {
                assert(line_fixes(i + 1, f) == line_fixes(i as int, f) + f(i as int));
            }
            i += 1;
        }
        out
    }
}

} // verus!
