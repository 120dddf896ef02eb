//! W026: invalid `:align` or `:center` values in `#+ATTR_ORG:`.
use vstd::prelude::*;
use crate::diagnostic::{Diagnostic, Severity};
use crate::lines::{diag_at, diags_view, finding_at, lemma_diags_push, line_ranges, line_spans, per_line, DiagView};
use crate::rules::{LintContext, LintRule};
use crate::text::{
    eq_str, find, find_str, first_word, first_word_range, push_all, push_str, skip_ws, starts_with,
    starts_with_str, string_from, strip_cr, strip_cr_end, trim_start,
};
use crate::unicode::{to_upper, upper_text};

verus! {

/// Reports, on an `#+ATTR_ORG:` line, an `:align` value other than `left`,
/// `center` or `right`, and a `:center` value other than `t`.
pub struct InvalidImageAlignment;

/// The first word after the first occurrence of `key` in `rest`, if any.
pub open spec fn value_after(rest: Seq<char>, key: Seq<char>) -> Option<Seq<char>> {
    match find(rest, key) {
        Some(p) => Some(first_word(rest.skip(p + key.len()))),
        None => None,
    }
}

pub open spec fn align_message(v: Seq<char>) -> Seq<char> {
    "invalid :align value '"@ + v + "' — expected left, center, or right"@
}

pub open spec fn center_message(v: Seq<char>) -> Seq<char> {
    "invalid :center value '"@ + v + "' — expected t"@
}

/// The findings of line `i`.
pub open spec fn alignment_line(t: Seq<char>, file: Seq<char>, spans: Seq<(int, int)>, i: int) -> Seq<DiagView> {
    let a = spans[i].0;
    let tr = trim_start(strip_cr(t.subrange(a, spans[i].1)));
    if starts_with(upper_text(tr), "#+ATTR_ORG:"@) && tr.len() >= 11 {
        let rest = tr.skip(11);
        let f = |m: Seq<char>| finding_at(t, file, a, Severity::Warning, "W026"@, "invalid-image-alignment"@, m);
        let al = match value_after(rest, ":align"@) {
            Some(v) => if v.len() > 0 && v != "left"@ && v != "center"@ && v != "right"@ {
                seq![f(align_message(v))]
            } else {
                Seq::empty()
            },
            None => Seq::empty(),
        };
        let ce = match value_after(rest, ":center"@) {
            Some(v) => if v.len() > 0 && v != "t"@ {
                seq![f(center_message(v))]
            } else {
                Seq::empty()
            },
            None => Seq::empty(),
        };
        al + ce
    } else {
        Seq::empty()
    }
}

/// The range of the first word after `key` in `s[lo..hi]`.
fn value_after_at(s: &[char], lo: usize, hi: usize, key: &str) -> (r: Option<(usize, usize)>)
    requires
        lo <= hi <= s@.len(),
    ensures
        r matches Some(p) ==> p.0 <= p.1 <= hi && value_after(s@.subrange(lo as int, hi as int), key@) == Some(s@.subrange(p.0 as int, p.1 as int)),
        r is None ==> value_after(s@.subrange(lo as int, hi as int), key@) is None,
{
    match find_str(s, lo, hi, key) {
        Some(p) => {
            assert(s@.subrange(p + key@.len(), hi as int) =~= s@.subrange(lo as int, hi as int).skip(p - lo + key@.len()));
            let (w0, w1) = first_word_range(s, p + key.unicode_len(), hi);
            Some((w0, w1))
        },
        None => None,
    }
}

impl LintRule for InvalidImageAlignment {
    fn id(&self) -> (r: &'static str)
        ensures
            r@ == "W026"@,
    {
        "W026"
    }

    fn name(&self) -> (r: &'static str)
        ensures
            r@ == "invalid-image-alignment"@,
    {
        "invalid-image-alignment"
    }

    fn description(&self) -> (r: &'static str)
        ensures
            r@ == "Detect invalid :align or :center in #+ATTR_ORG:"@,
    {
        "Detect invalid :align or :center in #+ATTR_ORG:"
    }

    fn check(&self, ctx: &LintContext) -> (r: Vec<Diagnostic>)
        ensures
            diags_view(r@) == per_line(
                line_spans(ctx.source.text()).len() as int,
                |i: int| alignment_line(ctx.source.text(), ctx.source.path_view(), line_spans(ctx.source.text()), i),
            ),
    {
        let s = ctx.source.chars();
        let lines = line_ranges(s);
        let ghost t = s@;
        let ghost file = ctx.source.path_view();
        let ghost spans = line_spans(t);
        let ghost f = |i: int| alignment_line(t, file, spans, i);
        let mut out: Vec<Diagnostic> = Vec::new();
        let mut i: usize = 0;
        while i < lines.len()
            invariant
                i <= lines@.len() == spans.len(),
                t == s@,
                t == ctx.source.text(),
                file == ctx.source.path_view(),
                spans == line_spans(t),
                f == (|i: int| alignment_line(t, file, spans, i)),
                forall|j: int| 0 <= j < lines@.len() ==> (#[trigger] lines@[j]).0 as int == spans[j].0 && lines@[j].1 as int == spans[j].1,
                forall|j: int| 0 <= j < lines@.len() ==> (#[trigger] lines@[j]).0 <= lines@[j].1 <= s@.len(),
                diags_view(out@) == per_line(i as int, f),
            decreases lines.len() - i,
        {
            let (a, e) = lines[i];
            let e1 = strip_cr_end(s, a, e);
            let k = skip_ws(s, a, e1);
            let ghost tr = s@.subrange(k as int, e1 as int);
            let upper = to_upper(&s[k..e1]);
            let us = upper.as_slice();
            assert(us@.subrange(0, us@.len() as int) =~= us@);
            let ghost base = diags_view(out@);
            if starts_with_str(us, 0, us.len(), "#+ATTR_ORG:") && e1 - k >= 11 {
                let r0 = k + 11;
                assert(s@.subrange(r0 as int, e1 as int) =~= tr.skip(11));
                let ghost mut al: Seq<DiagView> = Seq::empty();
                match value_after_at(s, r0, e1, ":align") {
                    Some((v0, v1)) => {
                        if v0 < v1 && !eq_str(s, v0, v1, "left") && !eq_str(s, v0, v1, "center") && !eq_str(s, v0, v1, "right") {
                            let mut msg: Vec<char> = Vec::new();
                            push_str(&mut msg, "invalid :align value '");
                            push_all(&mut msg, &s[v0..v1]);
                            push_str(&mut msg, "' — expected left, center, or right");
                            let d = diag_at(ctx.source, a, Severity::Warning, "W026", "invalid-image-alignment", string_from(msg.as_slice()));
                            proof {
                                lemma_diags_push(out@, d);
                                al = seq![diag_view_d(d)];
                            }
                            out.push(d);
                        }
                    },
                    None => {},
                }
                assert(diags_view(out@) == base + al);
                match value_after_at(s, r0, e1, ":center") {
                    Some((v0, v1)) => {
                        if v0 < v1 && !eq_str(s, v0, v1, "t") {
                            let mut msg: Vec<char> = Vec::new();
                            push_str(&mut msg, "invalid :center value '");
                            push_all(&mut msg, &s[v0..v1]);
                            push_str(&mut msg, "' — expected t");
                            let d = diag_at(ctx.source, a, Severity::Warning, "W026", "invalid-image-alignment", string_from(msg.as_slice()));
                            proof {
                                lemma_diags_push(out@, d);
                            }
                            out.push(d);
                        }
                    },
                    None => {},
                }
                assert(f(i as int) == alignment_line(t, file, spans, i as int));
            }
            proof {
                assert(per_line(i + 1, f) == per_line(i as int, f) + f(i as int));
            }
            i += 1;
        }
        out
    }
}

pub open spec fn diag_view_d(d: Diagnostic) -> DiagView {
    crate::lines::diag_view(d)
}

} // verus!
