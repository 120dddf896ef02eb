//! W020: heading stars after a line break inside a line.
use vstd::prelude::*;
use crate::diagnostic::{Diagnostic, Severity};
use crate::lines::{diag_at_column, diags_view, finding, lemma_diags_push, line_no, line_ranges, line_spans, per_line, DiagView};
use crate::rules::format::regions::{in_regions, is_protected, protected_regions_chars, protected_spec};
use crate::rules::{LintContext, LintRule};
use crate::text::{find, find_str, lead_count, skip_char, strip_cr, strip_cr_end};

verus! {

/// Reports a line, outside protected regions and not itself a heading, that
/// holds a line break followed by heading stars and a space.
pub struct MisplacedHeading;

pub open spec fn misplaced_message() -> Seq<char> {
    "possible misplaced heading — stars appear mid-line"@
}

/// The finding of line `i`, reported at the column of the line break.
pub open spec fn misplaced_line(t: Seq<char>, file: Seq<char>, spans: Seq<(int, int)>, i: int) -> Seq<DiagView> {
    let raw = strip_cr(t.subrange(spans[i].0, spans[i].1));
    if in_regions(i, protected_spec(t)) || raw.len() == 0 || raw[0] == '*' {
        Seq::empty()
    } else {
        match find(raw, "\n*"@) {
            Some(pos) => {
                let after = raw.skip(pos + 1);
                let stars = lead_count(after, '*') as int;
                if stars > 0 && after.len() > stars && after[stars] == ' ' {
                    seq![finding(file, line_no(t, spans[i].0), pos + 1, Severity::Warning, "W020"@, "misplaced-heading"@, misplaced_message())]
                } else {
                    Seq::empty()
                }
            },
            None => Seq::empty(),
        }
    }
}

impl LintRule for MisplacedHeading {
    fn id(&self) -> (r: &'static str)
        ensures
            r@ == "W020"@,
    {
        "W020"
    }

    fn name(&self) -> (r: &'static str)
        ensures
            r@ == "misplaced-heading"@,
    {
        "misplaced-heading"
    }

    fn description(&self) -> (r: &'static str)
        ensures
            r@ == "Detect heading stars appearing mid-line"@,
    {
        "Detect heading stars appearing mid-line"
    }

    fn check(&self, ctx: &LintContext) -> (r: Vec<Diagnostic>)
        ensures
            diags_view(r@) == per_line(
                line_spans(ctx.source.text()).len() as int,
                |i: int| misplaced_line(ctx.source.text(), ctx.source.path_view(), line_spans(ctx.source.text()), i),
            ),
    {
        let s = ctx.source.chars();
        let lines = line_ranges(s);
        let regions = protected_regions_chars(s);
        let ghost t = s@;
        let ghost file = ctx.source.path_view();
        let ghost spans = line_spans(t);
        let ghost f = |i: int| misplaced_line(t, file, spans, i);
        let mut out: Vec<Diagnostic> = Vec::new();
        let mut i: usize = 0;
        while i < lines.len()
            invariant
                i <= lines@.len() == spans.len(),
                t == s@,
                t == ctx.source.text(),
                file == ctx.source.path_view(),
                spans == line_spans(t),
                regions@ == protected_spec(t),
                f == (|i: int| misplaced_line(t, file, spans, i)),
                forall|j: int| 0 <= j < lines@.len() ==> (#[trigger] lines@[j]).0 as int == spans[j].0 && lines@[j].1 as int == spans[j].1,
                forall|j: int| 0 <= j < lines@.len() ==> (#[trigger] lines@[j]).0 <= lines@[j].1 <= s@.len(),
                diags_view(out@) == per_line(i as int, f),
            decreases lines.len() - i,
        {
            let (a, e) = lines[i];
            let e1 = strip_cr_end(s, a, e);
            let ghost raw = s@.subrange(a as int, e1 as int);
            assert(raw == strip_cr(t.subrange(a as int, e as int)));
            if !is_protected(i, regions.as_slice()) && e1 > a && s[a] != '*' {
                assert(raw[0] == s@[a as int]);
                match find_str(s, a, e1, "\n*") {
                    Some(pos) => {
                        proof {
                            reveal_strlit("\n*");
                        }
                        let k = skip_char(s, pos + 1, e1, '*');
                        assert(s@.subrange(pos + 1, e1 as int) =~= raw.skip(pos - a + 1));
                        if k > pos + 1 && e1 > k && s[k] == ' ' {
                            assert(raw.skip(pos - a + 1)[k - pos - 1] == s@[k as int]);
                            let d = diag_at_column(ctx.source, a, pos - a + 1, Severity::Warning, "W020", "misplaced-heading",
                                "possible misplaced heading — stars appear mid-line".to_owned());
                            proof {
                                lemma_diags_push(out@, d);
                            }
                            out.push(d);
                        } else {
                            proof {
                                if k > pos + 1 && e1 > k {
                                    assert(raw.skip(pos - a + 1)[k - pos - 1] == s@[k as int]);
                                }
                            }
                        }
                    },
                    None => {},
                }
            } else {
                proof {
                    if e1 > a {
                        assert(raw[0] == s@[a as int]);
                    }
                }
            }
            proof {
                assert(per_line(i + 1, f) == per_line(i as int, f) + f(i as int));
            }
            i += 1;
        }
        out
    }
}

} // verus!
