//! W008: more than one `#+CATEGORY:` keyword.
use vstd::prelude::*;
use crate::diagnostic::{Diagnostic, Severity};
use crate::lines::{col_no, diags_view, finding, line_no, line_ranges, line_spans, make_diag, DiagView};
use crate::rules::{LintContext, LintRule};
use crate::text::{skip_ws, starts_with, starts_with_str, strip_cr, strip_cr_end, trim_start};
use crate::unicode::{to_upper, upper_text};

verus! {

/// Reports every `#+CATEGORY:` line after the first: only the first is effective.
pub struct DeprecatedCategorySetup;

/// Whether line `(a, e)` of `t` is a `#+CATEGORY:` line (case-insensitively, after indentation).
pub open spec fn is_category_line(t: Seq<char>, sp: (int, int)) -> bool {
    starts_with(upper_text(trim_start(strip_cr(t.subrange(sp.0, sp.1)))), "#+CATEGORY:"@)
}

/// Whether a category line was seen among the first `n` lines, and the findings so far.
pub open spec fn category_run(t: Seq<char>, file: Seq<char>, spans: Seq<(int, int)>, n: int) -> (bool, Seq<DiagView>)
    decreases n,
{
    if n <= 0 {
        (false, Seq::empty())
    } else {
        let (seen, out) = category_run(t, file, spans, n - 1);
        let sp = spans[n - 1];
        if is_category_line(t, sp) {
            if seen {
                (true, out.push(finding(file, line_no(t, sp.0), col_no(t, sp.0), Severity::Warning, "W008"@,
                    "deprecated-category-setup"@, category_message())))
            } else {
                (true, out)
            }
        } else {
            (seen, out)
        }
    }
}

pub open spec fn category_message() -> Seq<char> {
    "only the first #+CATEGORY: is effective — use :CATEGORY: property instead"@
}

impl LintRule for DeprecatedCategorySetup {
    fn id(&self) -> (r: &'static str)
        ensures
            r@ == "W008"@,
    {
        "W008"
    }

    fn name(&self) -> (r: &'static str)
        ensures
            r@ == "deprecated-category-setup"@,
    {
        "deprecated-category-setup"
    }

    fn description(&self) -> (r: &'static str)
        ensures
            r@ == "Detect multiple #+CATEGORY: keywords (only the first is effective)"@,
    {
        "Detect multiple #+CATEGORY: keywords (only the first is effective)"
    }

    fn check(&self, ctx: &LintContext) -> (r: Vec<Diagnostic>)
        ensures
            diags_view(r@) == category_run(
                ctx.source.text(),
                ctx.source.path_view(),
                line_spans(ctx.source.text()),
                line_spans(ctx.source.text()).len() as int,
            ).1,
    {
        let s = ctx.source.chars();
        let lines = line_ranges(s);
        let ghost t = s@;
        let ghost file = ctx.source.path_view();
        let ghost spans = line_spans(t);
        let mut out: Vec<Diagnostic> = Vec::new();
        let mut seen = false;
        let mut i: usize = 0;
        while i < lines.len()
            invariant
                i <= lines@.len() == spans.len(),
                t == s@,
                t == ctx.source.text(),
                file == ctx.source.path_view(),
                spans == line_spans(t),
                s@.len() < usize::MAX,
                forall|j: int| 0 <= j < lines@.len() ==> (#[trigger] lines@[j]).0 as int == spans[j].0 && lines@[j].1 as int == spans[j].1,
                forall|j: int| 0 <= j < lines@.len() ==> (#[trigger] lines@[j]).0 <= lines@[j].1 <= s@.len(),
                (seen, diags_view(out@)) == category_run(t, file, spans, i as int),
            decreases lines.len() - i,
        {
            let (a, e) = lines[i];
            let e1 = strip_cr_end(s, a, e);
            let b = skip_ws(s, a, e1);
            let upper = to_upper(&s[b..e1]);
            assert(s@.subrange(b as int, e1 as int) == trim_start(strip_cr(t.subrange(a as int, e as int))));
            let us = upper.as_slice();
            assert(us@.subrange(0, us@.len() as int) =~= us@);
            if starts_with_str(us, 0, us.len(), "#+CATEGORY:") {
                if seen {
                    let (ln, col) = ctx.source.line_col(a);
                    let d = make_diag(ctx.source, ln, col, Severity::Warning, "W008", "deprecated-category-setup",
                        "only the first #+CATEGORY: is effective — use :CATEGORY: property instead".to_owned());
                    out.push(d);
                    assert(diags_view(out@) =~= diags_view(out@.drop_last()).push(diags_view(out@).last()));
                } else {
                    seen = true;
                }
            }
            i += 1;
        }
        out
    }
}

} // verus!
