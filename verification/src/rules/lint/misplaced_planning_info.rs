//! W015: planning lines that do not follow a heading.
use vstd::prelude::*;
use crate::diagnostic::{Diagnostic, Severity};
use crate::lines::{diag_at, diags_view, finding_at, lemma_diags_push, line_ranges, line_spans, per_line, DiagView};
use crate::rules::{LintContext, LintRule};
use crate::text::{lead_count, skip_char, skip_ws, starts_with, starts_with_str, strip_cr, strip_cr_end, trim, trim_range, trim_start};

verus! {

/// Reports a `SCHEDULED:`, `DEADLINE:` or `CLOSED:` line whose previous line
/// is neither a heading nor another planning line.
pub struct MisplacedPlanningInfo;

/// Whether a line, left-trimmed, is stars followed by a space or nothing.
pub open spec fn heading_like(line: Seq<char>) -> bool {
    let tr = trim_start(line);
    let after = tr.skip(lead_count(tr, '*') as int);
    tr.len() > 0 && tr[0] == '*' && (after.len() == 0 || after[0] == ' ')
}

/// Whether a line, trimmed, starts with a planning keyword.
pub open spec fn planning_like(line: Seq<char>) -> bool {
    let tr = trim(line);
    starts_with(tr, "SCHEDULED:"@) || starts_with(tr, "DEADLINE:"@) || starts_with(tr, "CLOSED:"@)
}

pub open spec fn planning_message() -> Seq<char> {
    "planning line is not immediately after a heading"@
}

/// The finding of line `i`.
pub open spec fn planning_line_finding(t: Seq<char>, file: Seq<char>, spans: Seq<(int, int)>, i: int) -> Seq<DiagView> {
    let raw = strip_cr(t.subrange(spans[i].0, spans[i].1));
    let valid = i > 0 && {
        let prev = strip_cr(t.subrange(spans[i - 1].0, spans[i - 1].1));
        heading_like(prev) || planning_like(prev)
    };
    if planning_like(raw) && !valid {
        seq![finding_at(t, file, spans[i].0, Severity::Warning, "W015"@, "misplaced-planning-info"@, planning_message())]
    } else {
        Seq::empty()
    }
}

fn heading_like_at(s: &[char], lo: usize, hi: usize) -> (b: bool)
    requires
        lo <= hi <= s@.len(),
    ensures
        b == heading_like(s@.subrange(lo as int, hi as int)),
{
    let k = skip_ws(s, lo, hi);
    let ghost tr = s@.subrange(k as int, hi as int);
    if k < hi && s[k] == '*' {
        assert(tr[0] == s@[k as int]);
        let m = skip_char(s, k, hi, '*');
        assert(s@.subrange(m as int, hi as int) =~= tr.skip(m - k));
        if m < hi {
            assert(tr.skip(m - k)[0] == s@[m as int]);
        }
        m == hi || s[m] == ' '
    } else {
        proof {
            if k < hi {
                assert(tr[0] == s@[k as int]);
            }
        }
        false
    }
}

fn planning_like_at(s: &[char], lo: usize, hi: usize) -> (b: bool)
    requires
        lo <= hi <= s@.len(),
    ensures
        b == planning_like(s@.subrange(lo as int, hi as int)),
{
    let (t0, t1) = trim_range(s, lo, hi);
    starts_with_str(s, t0, t1, "SCHEDULED:") || starts_with_str(s, t0, t1, "DEADLINE:") || starts_with_str(s, t0, t1, "CLOSED:")
}

impl LintRule for MisplacedPlanningInfo {
    fn id(&self) -> (r: &'static str)
        ensures
            r@ == "W015"@,
    {
        "W015"
    }

    fn name(&self) -> (r: &'static str)
        ensures
            r@ == "misplaced-planning-info"@,
    {
        "misplaced-planning-info"
    }

    fn description(&self) -> (r: &'static str)
        ensures
            r@ == "Detect planning lines not immediately after a heading"@,
    {
        "Detect planning lines not immediately after a heading"
    }

    fn check(&self, ctx: &LintContext) -> (r: Vec<Diagnostic>)
        ensures
            diags_view(r@) == per_line(
                line_spans(ctx.source.text()).len() as int,
                |i: int| planning_line_finding(ctx.source.text(), ctx.source.path_view(), line_spans(ctx.source.text()), i),
            ),
    {
        let s = ctx.source.chars();
        let lines = line_ranges(s);
        let ghost t = s@;
        let ghost file = ctx.source.path_view();
        let ghost spans = line_spans(t);
        let ghost f = |i: int| planning_line_finding(t, file, spans, i);
        let mut out: Vec<Diagnostic> = Vec::new();
        let mut i: usize = 0;
        while i < lines.len()
            invariant
                i <= lines@.len() == spans.len(),
                t == s@,
                t == ctx.source.text(),
                file == ctx.source.path_view(),
                spans == line_spans(t),
                f == (|i: int| planning_line_finding(t, file, spans, i)),
                forall|j: int| 0 <= j < lines@.len() ==> (#[trigger] lines@[j]).0 as int == spans[j].0 && lines@[j].1 as int == spans[j].1,
                forall|j: int| 0 <= j < lines@.len() ==> (#[trigger] lines@[j]).0 <= lines@[j].1 <= s@.len(),
                diags_view(out@) == per_line(i as int, f),
            decreases lines.len() - i,
        {
            let (a, e) = lines[i];
            let e1 = strip_cr_end(s, a, e);
            if planning_like_at(s, a, e1) {
                let valid = if i == 0 {
                    false
                } else {
                    let (p0, p1) = lines[i - 1];
                    let p2 = strip_cr_end(s, p0, p1);
                    heading_like_at(s, p0, p2) || planning_like_at(s, p0, p2)
                };
                if !valid {
                    let d = diag_at(ctx.source, a, Severity::Warning, "W015", "misplaced-planning-info",
                        "planning line is not immediately after a heading".to_owned());
                    proof {
                        lemma_diags_push(out@, d);
                    }
                    out.push(d);
                }
            }
            proof {
                assert(per_line(i + 1, f) == per_line(i as int, f) + f(i as int));
            }
            i += 1;
        }
        out
    }
}

} // verus!
