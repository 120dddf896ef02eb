//! W035: syntax errors in `:BLOCKER:` and `:TRIGGER:` property values.
use vstd::prelude::*;
use crate::diagnostic::{Diagnostic, Severity};
use crate::edna::{edna_spec, errs_view, parse_edna, ErrView};
use crate::lines::{diag_at, diags_view, finding_at, lemma_diags_push, line_ranges, line_spans, per_line, DiagView};
use crate::rules::format::regions::{in_regions, is_protected, protected_regions_chars, protected_spec};
use crate::rules::{LintContext, LintRule};
use crate::text::{push_all, push_str, starts_with, starts_with_str, str_chars, string_from, strip_cr, strip_cr_end, trim, trim_range};

verus! {

/// Reports each parse error of the value of a `:BLOCKER:` or `:TRIGGER:`
/// property line outside protected regions.
pub struct InvalidEdnaSyntax;

/// The property name and value of a trimmed `:BLOCKER:` or `:TRIGGER:` line.
pub open spec fn edna_property(tr: Seq<char>) -> Option<(Seq<char>, Seq<char>)> {
    if starts_with(tr, ":BLOCKER:"@) {
        Some(("BLOCKER"@, trim(tr.skip(9))))
    } else if starts_with(tr, ":TRIGGER:"@) {
        Some(("TRIGGER"@, trim(tr.skip(9))))
    } else {
        None
    }
}

/// The findings of line `i`: one per parse error, in order.
pub open spec fn edna_line(t: Seq<char>, file: Seq<char>, spans: Seq<(int, int)>, i: int) -> Seq<DiagView> {
    let tr = trim(strip_cr(t.subrange(spans[i].0, spans[i].1)));
    if in_regions(i, protected_spec(t)) {
        Seq::empty()
    } else {
        match edna_property(tr) {
            Some((name, value)) => if value.len() > 0 {
                edna_spec(value).1.map_values(|e: ErrView| finding_at(t, file, spans[i].0, Severity::Warning, "W035"@,
                    "invalid-edna-syntax"@, ":"@ + name + ": "@ + e.message))
            } else {
                Seq::empty()
            },
            None => Seq::empty(),
        }
    }
}

impl LintRule for InvalidEdnaSyntax {
    fn id(&self) -> (r: &'static str)
        ensures
            r@ == "W035"@,
    {
        "W035"
    }

    fn name(&self) -> (r: &'static str)
        ensures
            r@ == "invalid-edna-syntax"@,
    {
        "invalid-edna-syntax"
    }

    fn description(&self) -> (r: &'static str)
        ensures
            r@ == "Validate org-edna BLOCKER/TRIGGER property syntax"@,
    {
        "Validate org-edna BLOCKER/TRIGGER property syntax"
    }

    fn check(&self, ctx: &LintContext) -> (r: Vec<Diagnostic>)
        ensures
            diags_view(r@) == per_line(
                line_spans(ctx.source.text()).len() as int,
                |i: int| edna_line(ctx.source.text(), ctx.source.path_view(), line_spans(ctx.source.text()), i),
            ),
    {
        let s = ctx.source.chars();
        let lines = line_ranges(s);
        let regions = protected_regions_chars(s);
        let ghost t = s@;
        let ghost file = ctx.source.path_view();
        let ghost spans = line_spans(t);
        let ghost f = |i: int| edna_line(t, file, spans, i);
        let mut out: Vec<Diagnostic> = Vec::new();
        let mut i: usize = 0;
        while i < lines.len()
            invariant
                i <= lines@.len() == spans.len(),
                t == s@,
                t == ctx.source.text(),
                file == ctx.source.path_view(),
                spans == line_spans(t),
                regions@ == protected_spec(t),
                f == (|i: int| edna_line(t, file, spans, i)),
                forall|j: int| 0 <= j < lines@.len() ==> (#[trigger] lines@[j]).0 as int == spans[j].0 && lines@[j].1 as int == spans[j].1,
                forall|j: int| 0 <= j < lines@.len() ==> (#[trigger] lines@[j]).0 <= lines@[j].1 <= s@.len(),
                diags_view(out@) == per_line(i as int, f),
            decreases lines.len() - i,
        {
            let (a, e) = lines[i];
            let e1 = strip_cr_end(s, a, e);
            let (t0, t1) = trim_range(s, a, e1);
            let ghost tr = s@.subrange(t0 as int, t1 as int);
            if !is_protected(i, regions.as_slice()) {
                let name: Option<&str> = if starts_with_str(s, t0, t1, ":BLOCKER:") {
                    Some("BLOCKER")
                } else if starts_with_str(s, t0, t1, ":TRIGGER:") {
                    Some("TRIGGER")
                } else {
                    None
                };
                match name {
                    Some(nm) => {
                        proof {
                            reveal_strlit(":BLOCKER:");
                            reveal_strlit(":TRIGGER:");
                        }
                        let (v0, v1) = trim_range(s, t0 + 9, t1);
                        assert(s@.subrange(t0 + 9, t1 as int) =~= tr.skip(9));
                        if v0 < v1 {
                            let value = string_from(&s[v0..v1]);
                            let (_exprs, errors) = parse_edna(value.as_str());
                            let ghost ev = errs_view(errors@);
                            let ghost base = diags_view(out@);
                            let ghost d = |e: ErrView| finding_at(t, file, a as int, Severity::Warning, "W035"@,
                                "invalid-edna-syntax"@, ":"@ + nm@ + ": "@ + e.message);
                            let mut k: usize = 0;
                            while k < errors.len()
                                invariant
                                    k <= errors@.len(),
                                    ev == errs_view(errors@),
                                    a <= s@.len(),
                                    t == s@,
                                    t == ctx.source.text(),
                                    file == ctx.source.path_view(),
                                    d == (|e: ErrView| finding_at(t, file, a as int, Severity::Warning, "W035"@,
                                        "invalid-edna-syntax"@, ":"@ + nm@ + ": "@ + e.message)),
                                    diags_view(out@) == base + ev.take(k as int).map_values(d),
                                decreases errors.len() - k,
                            {
                                let mut msg: Vec<char> = Vec::new();
                                push_str(&mut msg, ":");
                                push_str(&mut msg, nm);
                                push_str(&mut msg, ": ");
                                let mc = str_chars(errors[k].message.as_str());
                                push_all(&mut msg, mc.as_slice());
                                let dg = diag_at(ctx.source, a, Severity::Warning, "W035", "invalid-edna-syntax", string_from(msg.as_slice()));
                                proof {
                                    lemma_diags_push(out@, dg);
                                    assert(ev[k as int] == crate::edna::err_view(errors@[k as int]));
                                    assert(ev.take(k + 1).map_values(d) =~= ev.take(k as int).map_values(d).push(d(ev[k as int])));
                                }
                                out.push(dg);
                                k += 1;
                            }
                            assert(ev.take(errors@.len() as int) =~= ev);
                        }
                    },
                    None => {},
                }
            }
            proof {
                assert(per_line(i + 1, f) == per_line(i as int, f) + f(i as int));
            }
            i += 1;
        }
        out
    }
}

} // verus!
