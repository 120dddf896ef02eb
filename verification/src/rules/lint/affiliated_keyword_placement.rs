//! W032: affiliated keywords separated from their element by a blank line.
use vstd::prelude::*;
use crate::diagnostic::{Diagnostic, Severity};
use crate::lines::{diag_at, diags_view, finding_at, lemma_diags_push, line_ranges, line_spans, per_line, DiagView};
use crate::rules::{LintContext, LintRule};
use crate::text::{skip_ws, starts_with, starts_with_str, strip_cr, strip_cr_end, trim, trim_range, trim_start};
use crate::unicode::{to_upper, upper_text};

verus! {

/// Reports an affiliated keyword line (`#+CAPTION:`, `#+NAME:`, `#+ATTR_*`,
/// `#+HEADER:`, `#+PLOT:`) whose next line is blank.
pub struct AffiliatedKeywordPlacement;

/// Whether the upper-cased, left-trimmed line `u` starts an affiliated keyword.
pub open spec fn affiliated_prefix(u: Seq<char>) -> bool {
    starts_with(u, "#+CAPTION:"@) || starts_with(u, "#+NAME:"@) || starts_with(u, "#+ATTR_"@)
        || starts_with(u, "#+HEADER:"@) || starts_with(u, "#+PLOT:"@)
}

pub open spec fn placement_message() -> Seq<char> {
    "affiliated keyword should not be separated from its element by a blank line"@
}

/// The finding of line `i`.
pub open spec fn placement_line(t: Seq<char>, file: Seq<char>, spans: Seq<(int, int)>, i: int) -> Seq<DiagView> {
    if affiliated_prefix(upper_text(trim_start(strip_cr(t.subrange(spans[i].0, spans[i].1))))) && i + 1 < spans.len()
        && trim(strip_cr(t.subrange(spans[i + 1].0, spans[i + 1].1))).len() == 0 {
        seq![finding_at(t, file, spans[i].0, Severity::Warning, "W032"@, "affiliated-keyword-placement"@, placement_message())]
    } else {
        Seq::empty()
    }
}

/// Whether the left-trimmed text `s[lo..hi]` starts an affiliated keyword, case-insensitively.
pub fn is_affiliated_keyword_at(s: &[char], lo: usize, hi: usize) -> (b: bool)
    requires
        lo <= hi <= s@.len(),
    ensures
        b == affiliated_prefix(upper_text(trim_start(s@.subrange(lo as int, hi as int)))),
{
    let k = skip_ws(s, lo, hi);
    let u = to_upper(&s[k..hi]);
    let us = u.as_slice();
    assert(us@.subrange(0, us@.len() as int) =~= us@);
    starts_with_str(us, 0, us.len(), "#+CAPTION:") || starts_with_str(us, 0, us.len(), "#+NAME:")
        || starts_with_str(us, 0, us.len(), "#+ATTR_") || starts_with_str(us, 0, us.len(), "#+HEADER:")
        || starts_with_str(us, 0, us.len(), "#+PLOT:")
}

impl LintRule for AffiliatedKeywordPlacement {
    fn id(&self) -> (r: &'static str)
        ensures
            r@ == "W032"@,
    {
        "W032"
    }

    fn name(&self) -> (r: &'static str)
        ensures
            r@ == "affiliated-keyword-placement"@,
    {
        "affiliated-keyword-placement"
    }

    fn description(&self) -> (r: &'static str)
        ensures
            r@ == "Detect affiliated keywords separated from elements by blank lines"@,
    {
        "Detect affiliated keywords separated from elements by blank lines"
    }

    fn check(&self, ctx: &LintContext) -> (r: Vec<Diagnostic>)
        ensures
            diags_view(r@) == per_line(
                line_spans(ctx.source.text()).len() as int,
                |i: int| placement_line(ctx.source.text(), ctx.source.path_view(), line_spans(ctx.source.text()), i),
            ),
    {
        let s = ctx.source.chars();
        let lines = line_ranges(s);
        let ghost t = s@;
        let ghost file = ctx.source.path_view();
        let ghost spans = line_spans(t);
        let ghost f = |i: int| placement_line(t, file, spans, i);
        let mut out: Vec<Diagnostic> = Vec::new();
        let mut i: usize = 0;
        while i < lines.len()
            invariant
                i <= lines@.len() == spans.len(),
                t == s@,
                t == ctx.source.text(),
                file == ctx.source.path_view(),
                spans == line_spans(t),
                f == (|i: int| placement_line(t, file, spans, i)),
                forall|j: int| 0 <= j < lines@.len() ==> (#[trigger] lines@[j]).0 as int == spans[j].0 && lines@[j].1 as int == spans[j].1,
                forall|j: int| 0 <= j < lines@.len() ==> (#[trigger] lines@[j]).0 <= lines@[j].1 <= s@.len(),
                diags_view(out@) == per_line(i as int, f),
            decreases lines.len() - i,
        {
            let (a, e) = lines[i];
            let e1 = strip_cr_end(s, a, e);
            if is_affiliated_keyword_at(s, a, e1) && i + 1 < lines.len() {
                let (b0, b1) = lines[i + 1];
                let b2 = strip_cr_end(s, b0, b1);
                let (u0, u1) = trim_range(s, b0, b2);
                if u0 == u1 {
                    let d = diag_at(ctx.source, a, Severity::Warning, "W032", "affiliated-keyword-placement",
                        "affiliated keyword should not be separated from its element by a blank line".to_owned());
                    proof {
                        lemma_diags_push(out@, d);
                    }
                    out.push(d);
                }
            }
            proof {
                assert(per_line(i + 1, f) == per_line(i as int, f) + f(i as int));
            }
            i += 1;
        }
        out
    }
}

} // verus!
