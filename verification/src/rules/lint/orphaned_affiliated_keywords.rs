//! W021: affiliated keywords not attached to an element.
use vstd::prelude::*;
use crate::diagnostic::{Diagnostic, Severity};
use crate::lines::{diag_at, diags_view, finding_at, lemma_diags_push, line_ranges, line_spans, per_line, DiagView};
use crate::rules::{LintContext, LintRule};
use crate::text::{skip_ws, starts_with, starts_with_str, strip_cr, strip_cr_end, trim, trim_range, trim_start};
use crate::unicode::{to_upper, upper_text};

verus! {

/// Reports an affiliated keyword line when the first following line that is
/// not itself an affiliated keyword is blank, is not an element a keyword can
/// attach to (a table, a block, a call, a link or an include), or is missing.
pub struct OrphanedAffiliatedKeywords;

/// Whether a left-trimmed line is an affiliated keyword, case-insensitively.
pub open spec fn affiliated(tr: Seq<char>) -> bool {
    let u = upper_text(tr);
    starts_with(u, "#+CAPTION:"@) || starts_with(u, "#+NAME:"@) || starts_with(u, "#+ATTR_"@)
        || starts_with(u, "#+HEADER:"@) || starts_with(u, "#+HEADERS:"@) || starts_with(u, "#+PLOT:"@)
}

/// Whether a left-trimmed line starts an element that a keyword attaches to.
pub open spec fn attachable(tr: Seq<char>) -> bool {
    starts_with(tr, "|"@) || starts_with(tr, "#+BEGIN"@) || starts_with(tr, "#+begin"@) || starts_with(tr, "#+CALL"@)
        || starts_with(tr, "#+call"@) || starts_with(tr, "[["@) || starts_with(tr, "#+INCLUDE"@)
        || starts_with(tr, "#+include"@)
}

/// Line `k` of `t`, without its carriage return and leading whitespace.
pub open spec fn line_tr(t: Seq<char>, spans: Seq<(int, int)>, k: int) -> Seq<char> {
    trim_start(strip_cr(t.subrange(spans[k].0, spans[k].1)))
}

/// The first line from `j` on that is not an affiliated keyword, or the number of lines.
pub open spec fn next_element(t: Seq<char>, spans: Seq<(int, int)>, j: int) -> int
    decreases spans.len() - j,
{
    if j < 0 || j >= spans.len() {
        spans.len() as int
    } else if trim(line_tr(t, spans, j)).len() != 0 && affiliated(line_tr(t, spans, j)) {
        next_element(t, spans, j + 1)
    } else {
        j
    }
}

pub open spec fn blank_message() -> Seq<char> {
    "affiliated keyword is separated from its element by a blank line"@
}

pub open spec fn unattached_message() -> Seq<char> {
    "affiliated keyword is not followed by an attachable element"@
}

pub open spec fn eof_message() -> Seq<char> {
    "affiliated keyword at end of file with no element"@
}

/// The finding of line `i`.
pub open spec fn orphan_line(t: Seq<char>, file: Seq<char>, spans: Seq<(int, int)>, i: int) -> Seq<DiagView> {
    if affiliated(line_tr(t, spans, i)) {
        let k = next_element(t, spans, i + 1);
        let f = |m: Seq<char>| finding_at(t, file, spans[i].0, Severity::Warning, "W021"@, "orphaned-affiliated-keywords"@, m);
        if k >= spans.len() {
            seq![f(eof_message())]
        } else if trim(line_tr(t, spans, k)).len() == 0 {
            seq![f(blank_message())]
        } else if attachable(line_tr(t, spans, k)) {
            Seq::empty()
        } else {
            seq![f(unattached_message())]
        }
    } else {
        Seq::empty()
    }
}

fn affiliated_at(s: &[char], lo: usize, hi: usize) -> (b: bool)
    requires
        lo <= hi <= s@.len(),
    ensures
        b == affiliated(s@.subrange(lo as int, hi as int)),
{
    let u = to_upper(&s[lo..hi]);
    let us = u.as_slice();
    assert(us@.subrange(0, us@.len() as int) =~= us@);
    starts_with_str(us, 0, us.len(), "#+CAPTION:") || starts_with_str(us, 0, us.len(), "#+NAME:")
        || starts_with_str(us, 0, us.len(), "#+ATTR_") || starts_with_str(us, 0, us.len(), "#+HEADER:")
        || starts_with_str(us, 0, us.len(), "#+HEADERS:") || starts_with_str(us, 0, us.len(), "#+PLOT:")
}

fn attachable_at(s: &[char], lo: usize, hi: usize) -> (b: bool)
    requires
        lo <= hi <= s@.len(),
    ensures
        b == attachable(s@.subrange(lo as int, hi as int)),
{
    starts_with_str(s, lo, hi, "|") || starts_with_str(s, lo, hi, "#+BEGIN") || starts_with_str(s, lo, hi, "#+begin")
        || starts_with_str(s, lo, hi, "#+CALL") || starts_with_str(s, lo, hi, "#+call") || starts_with_str(s, lo, hi, "[[")
        || starts_with_str(s, lo, hi, "#+INCLUDE") || starts_with_str(s, lo, hi, "#+include")
}

impl LintRule for OrphanedAffiliatedKeywords {
    fn id(&self) -> (r: &'static str)
        ensures
            r@ == "W021"@,
    {
        "W021"
    }

    fn name(&self) -> (r: &'static str)
        ensures
            r@ == "orphaned-affiliated-keywords"@,
    {
        "orphaned-affiliated-keywords"
    }

    fn description(&self) -> (r: &'static str)
        ensures
            r@ == "Detect affiliated keywords not attached to any element"@,
    {
        "Detect affiliated keywords not attached to any element"
    }

    fn check(&self, ctx: &LintContext) -> (r: Vec<Diagnostic>)
        ensures
            diags_view(r@) == per_line(
                line_spans(ctx.source.text()).len() as int,
                |i: int| orphan_line(ctx.source.text(), ctx.source.path_view(), line_spans(ctx.source.text()), i),
            ),
    {
        let s = ctx.source.chars();
        let lines = line_ranges(s);
        let ghost t = s@;
        let ghost file = ctx.source.path_view();
        let ghost spans = line_spans(t);
        let ghost f = |i: int| orphan_line(t, file, spans, i);
        let mut out: Vec<Diagnostic> = Vec::new();
        let mut i: usize = 0;
        while i < lines.len()
            invariant
                i <= lines@.len() == spans.len(),
                t == s@,
                t == ctx.source.text(),
                file == ctx.source.path_view(),
                spans == line_spans(t),
                f == (|i: int| orphan_line(t, file, spans, i)),
                forall|j: int| 0 <= j < lines@.len() ==> (#[trigger] lines@[j]).0 as int == spans[j].0 && lines@[j].1 as int == spans[j].1,
                forall|j: int| 0 <= j < lines@.len() ==> (#[trigger] lines@[j]).0 <= lines@[j].1 <= s@.len(),
                diags_view(out@) == per_line(i as int, f),
            decreases lines.len() - i,
        {
            let (a, e) = lines[i];
            let e1 = strip_cr_end(s, a, e);
            let k = skip_ws(s, a, e1);
            assert(s@.subrange(k as int, e1 as int) == line_tr(t, spans, i as int));
            if affiliated_at(s, k, e1) {
                let mut j = i + 1;
                let mut msg: Option<&str> = None;
                while j < lines.len()
                    invariant
                        i < j <= lines@.len() == spans.len(),
                        spans == line_spans(t),
                        t == s@,
                        forall|m: int| 0 <= m < lines@.len() ==> (#[trigger] lines@[m]).0 as int == spans[m].0 && lines@[m].1 as int == spans[m].1,
                        forall|m: int| 0 <= m < lines@.len() ==> (#[trigger] lines@[m]).0 <= lines@[m].1 <= s@.len(),
                        next_element(t, spans, i + 1) == next_element(t, spans, j as int),
                        msg is None,
                    ensures
                        i < j <= lines@.len(),
                        j == next_element(t, spans, i + 1),
                        msg is None,
                    decreases lines.len() - j,
                {
                    let (b0, b1) = lines[j];
                    let b2 = strip_cr_end(s, b0, b1);
                    let bk = skip_ws(s, b0, b2);
                    let (u0, u1) = trim_range(s, bk, b2);
                    assert(s@.subrange(bk as int, b2 as int) == line_tr(t, spans, j as int));
                    if u0 < u1 && affiliated_at(s, bk, b2) {
                        j += 1;
                    } else {
                        break;
                    }
                }
                let ghost kk = next_element(t, spans, i + 1);
                if j >= lines.len() {
                    msg = Some("affiliated keyword at end of file with no element");
                } else {
                    let (b0, b1) = lines[j];
                    let b2 = strip_cr_end(s, b0, b1);
                    let bk = skip_ws(s, b0, b2);
                    let (u0, u1) = trim_range(s, bk, b2);
                    assert(s@.subrange(bk as int, b2 as int) == line_tr(t, spans, j as int));
                    if u0 == u1 {
                        msg = Some("affiliated keyword is separated from its element by a blank line");
                    } else if !attachable_at(s, bk, b2) {
                        msg = Some("affiliated keyword is not followed by an attachable element");
                    }
                }
                match msg {
                    Some(m) => {
                        let d = diag_at(ctx.source, a, Severity::Warning, "W021", "orphaned-affiliated-keywords", m.to_owned());
                        proof {
                            lemma_diags_push(out@, d);
                        }
                        out.push(d);
                    },
                    None => {},
                }
            }
            proof {
                assert(per_line(i + 1, f) == per_line(i as int, f) + f(i as int));
            }
            i += 1;
        }
        out
    }
}

} // verus!
