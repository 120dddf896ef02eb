//! W016: deprecated `file+application:` link types.
use vstd::prelude::*;
use crate::diagnostic::{Diagnostic, Severity};
use crate::lines::{diag_at_column, diags_view, finding, lemma_diags_push, line_no, line_ranges, line_spans, per_line, DiagView};
use crate::rules::format::regions::{in_regions, is_protected, protected_regions_chars, protected_spec};
use crate::rules::{LintContext, LintRule};
use crate::text::{find, find_str, strip_cr, strip_cr_end};

verus! {

/// Reports each `[[file+` link of a line outside protected regions.
pub struct FileApplication;

/// The number of non-overlapping occurrences of `[[file+` in `t`.
pub open spec fn app_links(t: Seq<char>) -> nat
    decreases t.len(),
{
    match find(t, "[[file+"@) {
        Some(k) => if 0 <= k && k + 7 <= t.len() {
            1 + app_links(t.skip(k + 7))
        } else {
            0
        },
        None => 0,
    }
}

pub open spec fn app_message() -> Seq<char> {
    "file+application: link type is deprecated — use file: instead"@
}

/// The findings of line `i`: one per deprecated link, at column 1.
pub open spec fn app_line(t: Seq<char>, file: Seq<char>, spans: Seq<(int, int)>, i: int) -> Seq<DiagView> {
    if in_regions(i, protected_spec(t)) {
        Seq::empty()
    } else {
        let d = finding(file, line_no(t, spans[i].0), 1, Severity::Warning, "W016"@, "file-application"@, app_message());
        Seq::new(app_links(strip_cr(t.subrange(spans[i].0, spans[i].1))), |_j: int| d)
    }
}

impl LintRule for FileApplication {
    fn id(&self) -> (r: &'static str)
        ensures
            r@ == "W016"@,
    {
        "W016"
    }

    fn name(&self) -> (r: &'static str)
        ensures
            r@ == "file-application"@,
    {
        "file-application"
    }

    fn description(&self) -> (r: &'static str)
        ensures
            r@ == "Detect deprecated file+application: link types"@,
    {
        "Detect deprecated file+application: link types"
    }

    fn check(&self, ctx: &LintContext) -> (r: Vec<Diagnostic>)
        ensures
            diags_view(r@) == per_line(
                line_spans(ctx.source.text()).len() as int,
                |i: int| app_line(ctx.source.text(), ctx.source.path_view(), line_spans(ctx.source.text()), i),
            ),
    {
        let s = ctx.source.chars();
        let lines = line_ranges(s);
        let regions = protected_regions_chars(s);
        let ghost t = s@;
        let ghost file = ctx.source.path_view();
        let ghost spans = line_spans(t);
        let ghost f = |i: int| app_line(t, file, spans, i);
        let mut out: Vec<Diagnostic> = Vec::new();
        let mut i: usize = 0;
        while i < lines.len()
            invariant
                i <= lines@.len() == spans.len(),
                t == s@,
                t == ctx.source.text(),
                file == ctx.source.path_view(),
                spans == line_spans(t),
                regions@ == protected_spec(t),
                f == (|i: int| app_line(t, file, spans, i)),
                forall|j: int| 0 <= j < lines@.len() ==> (#[trigger] lines@[j]).0 as int == spans[j].0 && lines@[j].1 as int == spans[j].1,
                forall|j: int| 0 <= j < lines@.len() ==> (#[trigger] lines@[j]).0 <= lines@[j].1 <= s@.len(),
                diags_view(out@) == per_line(i as int, f),
            decreases lines.len() - i,
        {
            let (a, e) = lines[i];
            if !is_protected(i, regions.as_slice()) {
                let e1 = strip_cr_end(s, a, e);
                let ghost raw = s@.subrange(a as int, e1 as int);
                let ghost base = diags_view(out@);
                let ghost d = finding(file, line_no(t, a as int), 1, Severity::Warning, "W016"@, "file-application"@, app_message());
                let mut k = a;
                let ghost mut cnt: nat = 0;
                while k < e1
                    invariant
                        a <= k <= e1 <= s@.len(),
                        raw == s@.subrange(a as int, e1 as int),
                        cnt + app_links(s@.subrange(k as int, e1 as int)) == app_links(raw),
                        diags_view(out@) == base + Seq::new(cnt, |_j: int| d),
                        d == finding(file, line_no(t, a as int), 1, Severity::Warning, "W016"@, "file-application"@, app_message()),
                        file == ctx.source.path_view(),
                        t == ctx.source.text(),
                        t == s@,
                    decreases e1 - k,
                {
                    match find_str(s, k, e1, "[[file+") {
                        Some(pos) => {
                            proof {
                                reveal_strlit("[[file+");
                            }
                            let dg = diag_at_column(ctx.source, a, 1, Severity::Warning, "W016", "file-application",
                                "file+application: link type is deprecated — use file: instead".to_owned());
                            proof {
                                lemma_diags_push(out@, dg);
                                assert(s@.subrange(k as int, e1 as int).skip(pos - k + 7) =~= s@.subrange(pos + 7, e1 as int));
                            }
                            out.push(dg);
                            proof {
                                assert(base + Seq::new(cnt + 1, |_j: int| d) =~= (base + Seq::new(cnt, |_j: int| d)).push(d));
                                cnt = cnt + 1;
                            }
                            k = pos + 7;
                        },
                        None => {
                            k = e1;
                        },
                    }
                }
                proof {
                    assert(app_links(s@.subrange(k as int, e1 as int)) == 0);
                    assert(strip_cr(t.subrange(a as int, e as int)) == raw);
                    assert(app_line(t, file, spans, i as int) == Seq::new(cnt, |_j: int| d));
                }
            }
            proof {
                assert(per_line(i + 1, f) == per_line(i as int, f) + f(i as int));
            }
            i += 1;
        }
        out
    }
}

} // verus!
