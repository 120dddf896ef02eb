//! F003: one blank line before each heading.
use vstd::prelude::*;
use crate::diagnostic::Fix;
use crate::lines::{fixes_view, line_fixes, line_ranges, line_spans, push_fix};
use crate::rules::lint::misplaced_planning_info::heading_like;
use crate::rules::{FormatContext, FormatRule};
use crate::text::{lead_count, skip_char, skip_ws, strip_cr, strip_cr_end, trim, trim_range, trim_start};

verus! {

/// Puts exactly one blank line before each heading that follows other
/// content, and none between a heading and a heading that follows it.
pub struct HeadingSpacing;

/// Whether line `k` is blank.
pub open spec fn blank_line(t: Seq<char>, spans: Seq<(int, int)>, k: int) -> bool {
    trim(strip_cr(t.subrange(spans[k].0, spans[k].1))).len() == 0
}

/// The number of blank lines just before line `i`.
pub open spec fn blanks_before(t: Seq<char>, spans: Seq<(int, int)>, i: int) -> int
    decreases i,
{
    if i <= 0 {
        0
    } else if blank_line(t, spans, i - 1) {
        1 + blanks_before(t, spans, i - 1)
    } else {
        0
    }
}

/// `"\n"` repeated `n` times.
pub open spec fn newlines(n: int) -> Seq<char> {
    Seq::new(n as nat, |_j: int| '\n')
}

/// The fix of line `i`.
pub open spec fn heading_space_fix(t: Seq<char>, spans: Seq<(int, int)>, i: int) -> Seq<(int, int, Seq<char>)> {
    if i > 0 && heading_like(strip_cr(t.subrange(spans[i].0, spans[i].1))) {
        let b = blanks_before(t, spans, i);
        let prev_heading = b < i && heading_like(strip_cr(t.subrange(spans[i - b - 1].0, spans[i - b - 1].1)));
        let desired = if prev_heading { 0int } else { 1int };
        if b != desired {
            seq![(spans[i - b].0, spans[i].0, newlines(desired))]
        } else {
            Seq::empty()
        }
    } else {
        Seq::empty()
    }
}

fn heading_like_at(s: &[char], lo: usize, hi: usize) -> (b: bool)
    requires
        lo <= hi <= s@.len(),
    ensures
        b == heading_like(s@.subrange(lo as int, hi as int)),
{
    let k = skip_ws(s, lo, hi);
    let ghost tr = s@.subrange(k as int, hi as int);
    if k < hi && s[k] == '*' {
        assert(tr[0] == s@[k as int]);
        let m = skip_char(s, k, hi, '*');
        assert(s@.subrange(m as int, hi as int) =~= tr.skip(m - k));
        if m < hi {
            assert(tr.skip(m - k)[0] == s@[m as int]);
        }
        m == hi || s[m] == ' '
    } else {
        proof {
            if k < hi {
                assert(tr[0] == s@[k as int]);
            }
        }
        false
    }
}

impl FormatRule for HeadingSpacing {
    fn id(&self) -> (r: &'static str)
        ensures
            r@ == "F003"@,
    {
        "F003"
    }

    fn name(&self) -> (r: &'static str)
        ensures
            r@ == "heading-spacing"@,
    {
        "heading-spacing"
    }

    fn description(&self) -> (r: &'static str)
        ensures
            r@ == "Ensure one blank line before headings"@,
    {
        "Ensure one blank line before headings"
    }

    fn format(&self, ctx: &FormatContext) -> (r: Vec<Fix>)
        ensures
            fixes_view(r@) == line_fixes(
                line_spans(ctx.source.text()).len() as int,
                |i: int| heading_space_fix(ctx.source.text(), line_spans(ctx.source.text()), i),
            ),
    {
        let s = ctx.source.chars();
        let lines = line_ranges(s);
        let ghost t = s@;
        let ghost spans = line_spans(t);
        let ghost f = |i: int| heading_space_fix(t, spans, i);
        let mut out: Vec<Fix> = Vec::new();
        let mut i: usize = 0;
        while i < lines.len()
            invariant
                i <= lines@.len() == spans.len(),
                t == s@,
                t == ctx.source.text(),
                spans == line_spans(t),
                f == (|i: int| heading_space_fix(t, spans, i)),
                forall|j: int| 0 <= j < lines@.len() ==> (#[trigger] lines@[j]).0 as int == spans[j].0 && lines@[j].1 as int == spans[j].1,
                forall|j: int| 0 <= j < lines@.len() ==> (#[trigger] lines@[j]).0 <= lines@[j].1 <= s@.len(),
                fixes_view(out@) == line_fixes(i as int, f),
            decreases lines.len() - i,
        {
            let (a, e) = lines[i];
            let e1 = strip_cr_end(s, a, e);
            if i > 0 && heading_like_at(s, a, e1) {
                let mut b: usize = 0;
                while b < i
                    invariant
                        b <= i < lines@.len() == spans.len(),
                        t == s@,
                        spans == line_spans(t),
                        forall|j: int| 0 <= j < lines@.len() ==> (#[trigger] lines@[j]).0 as int == spans[j].0 && lines@[j].1 as int == spans[j].1,
                        forall|j: int| 0 <= j < lines@.len() ==> (#[trigger] lines@[j]).0 <= lines@[j].1 <= s@.len(),
                        blanks_before(t, spans, i as int) == b + blanks_before(t, spans, i - b),
                    ensures
                        b <= i,
                        blanks_before(t, spans, i as int) == b + blanks_before(t, spans, i - b),
                        b < i ==> !blank_line(t, spans, i - b - 1),
                    decreases i - b,
                {
                    let (p0, p1) = lines[i - 1 - b];
                    let p2 = strip_cr_end(s, p0, p1);
                    let (u0, u1) = trim_range(s, p0, p2);
                    if u0 < u1 {
                        break;
                    }
                    b += 1;
                }
                assert(blanks_before(t, spans, i - b) == 0);
                let prev_heading = if b < i {
                    let (p0, p1) = lines[i - b - 1];
                    let p2 = strip_cr_end(s, p0, p1);
                    heading_like_at(s, p0, p2)
                } else {
                    false
                };
                let desired: usize = if prev_heading { 0 } else { 1 };
                if b != desired {
                    let text = if desired == 1 { "\n".to_owned() } else { String::new() };
                    proof {
                        reveal_strlit("\n");
                        assert(text@ =~= newlines(desired as int));
                    }
                    push_fix(&mut out, lines[i - b].0, a, text);
                }
            }
            proof {
                assert(line_fixes(i + 1, f) == line_fixes(i as int, f) + f(i as int));
            }
            i += 1;
        }
        out
    }
}

} // verus!
