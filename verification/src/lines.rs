//! Splitting a text into lines, and describing diagnostics by view.
use vstd::prelude::*;
use crate::diagnostic::{Diagnostic, Fix, Severity, Span};
use crate::source::{count_nl, last_line_start, SourceFile};
use crate::text::{line_end, lemma_nl_end, nl_end};

verus! {

/// The lines of `t` from offset `pos` on, split at `'\n'` as `str::split('\n')`
/// does, each as the pair of its start and end offsets.
pub open spec fn line_spans_from(t: Seq<char>, pos: int) -> Seq<(int, int)>
    decreases t.len() - pos,
    when 0 <= pos <= t.len()
{
    let e = nl_end(t, pos);
    proof {
        lemma_nl_end(t, pos);
    }
    if e >= t.len() {
        seq![(pos, e)]
    } else {
        seq![(pos, e)] + line_spans_from(t, e + 1)
    }
}

/// The lines of `t` as pairs of start and end offsets.
pub open spec fn line_spans(t: Seq<char>) -> Seq<(int, int)> {
    line_spans_from(t, 0)
}

/// 1-based line number of offset `off` in `t`.
pub open spec fn line_no(t: Seq<char>, off: int) -> int {
    count_nl(t.take(off)) as int + 1
}

/// 1-based column of offset `off` in `t`.
pub open spec fn col_no(t: Seq<char>, off: int) -> int {
    off - last_line_start(t.take(off)) + 1
}

pub proof fn lemma_line_spans_from(t: Seq<char>, pos: int)
    requires
        0 <= pos <= t.len(),
    ensures
        line_spans_from(t, pos).len() >= 1,
        forall|i: int|
            0 <= i < line_spans_from(t, pos).len() ==> pos <= (#[trigger] line_spans_from(t, pos)[i]).0
                <= line_spans_from(t, pos)[i].1 <= t.len(),
    decreases t.len() - pos,
{
    lemma_nl_end(t, pos);
    let e = nl_end(t, pos);
    if e < t.len() {
        lemma_line_spans_from(t, e + 1);
        let r = line_spans_from(t, e + 1);
        assert forall|i: int| 0 <= i < line_spans_from(t, pos).len() implies pos <= (
        #[trigger] line_spans_from(t, pos)[i]).0 <= line_spans_from(t, pos)[i].1 <= t.len() by {
            if i > 0 {
                assert(line_spans_from(t, pos)[i] == r[i - 1]);
            }
        }
    }
}

/// Lines come in order: each ends before the next starts.
pub proof fn lemma_spans_ordered(t: Seq<char>, i: int, j: int)
    requires
        0 <= i < j < line_spans(t).len(),
    ensures
        line_spans(t)[i].1 < line_spans(t)[j].0,
        line_spans(t)[i].0 <= line_spans(t)[i].1,
{
    lemma_spans_from_ordered(t, 0, i, j);
}

proof fn lemma_spans_from_ordered(t: Seq<char>, pos: int, i: int, j: int)
    requires
        0 <= pos <= t.len(),
        0 <= i < j < line_spans_from(t, pos).len(),
    ensures
        line_spans_from(t, pos)[i].1 < line_spans_from(t, pos)[j].0,
        line_spans_from(t, pos)[i].0 <= line_spans_from(t, pos)[i].1,
    decreases t.len() - pos,
{
    lemma_nl_end(t, pos);
    let e = nl_end(t, pos);
    if e < t.len() {
        lemma_line_spans_from(t, e + 1);
        let r = line_spans_from(t, e + 1);
        if i == 0 {
            assert(line_spans_from(t, pos)[j] == r[j - 1]);
        } else {
            lemma_spans_from_ordered(t, e + 1, i - 1, j - 1);
            assert(line_spans_from(t, pos)[j] == r[j - 1]);
            assert(line_spans_from(t, pos)[i] == r[i - 1]);
        }
    }
}

/// The offsets of the lines of `s`.
pub fn line_ranges(s: &[char]) -> (r: Vec<(usize, usize)>)
    ensures
        r@.len() == line_spans(s@).len(),
        r@.len() >= 1,
        r@.len() <= s@.len() + 1,
        forall|i: int|
            0 <= i < r@.len() ==> (#[trigger] r@[i]).0 as int == line_spans(s@)[i].0 && r@[i].1 as int
                == line_spans(s@)[i].1,
        forall|i: int| 0 <= i < r@.len() ==> (#[trigger] r@[i]).0 <= r@[i].1 <= s@.len(),
{
    let mut r: Vec<(usize, usize)> = Vec::new();
    let mut pos: usize = 0;
    let ghost mut done: Seq<(int, int)> = Seq::empty();
    proof {
        lemma_line_spans_from(s@, 0);
    }
    loop
        invariant
            pos <= s@.len(),
            done + line_spans_from(s@, pos as int) == line_spans(s@),
            r@.len() == done.len(),
            r@.len() <= pos,
            forall|i: int| 0 <= i < r@.len() ==> (#[trigger] r@[i]).0 as int == done[i].0 && r@[i].1 as int == done[i].1,
            forall|i: int| 0 <= i < r@.len() ==> (#[trigger] r@[i]).0 <= r@[i].1 <= s@.len(),
        decreases s@.len() - pos,
    {
        let e = line_end(s, pos);
        proof {
            lemma_nl_end(s@, pos as int);
        }
        r.push((pos, e));
        if e >= s.len() {
            proof {
                done = done.push((pos as int, e as int));
                assert(done =~= line_spans(s@));
            }
            return r;
        }
        proof {
            let old_done = done;
            done = done.push((pos as int, e as int));
            assert(done + line_spans_from(s@, e + 1) =~= old_done + line_spans_from(s@, pos as int));
        }
        pos = e + 1;
    }
}

/// A diagnostic as plain values.
pub struct DiagView {
    pub file: Seq<char>,
    pub line: int,
    pub column: int,
    pub severity: Severity,
    pub rule_id: Seq<char>,
    pub rule: Seq<char>,
    pub message: Seq<char>,
    /// The fix the diagnostic carries: start, end and replacement.
    pub fix: Option<(int, int, Seq<char>)>,
}

pub open spec fn diag_view(d: Diagnostic) -> DiagView {
    DiagView {
        file: d.file@,
        line: d.line as int,
        column: d.column as int,
        severity: d.severity,
        rule_id: d.rule_id@,
        rule: d.rule@,
        message: d.message@,
        fix: match d.fix {
            Some(f) => Some(fix_view(f)),
            None => None,
        },
    }
}

pub open spec fn diags_view(v: Seq<Diagnostic>) -> Seq<DiagView> {
    v.map_values(|d: Diagnostic| diag_view(d))
}

/// The diagnostic of a rule at a line and column, with no fix.
pub open spec fn finding(
    file: Seq<char>,
    line: int,
    column: int,
    severity: Severity,
    rule_id: Seq<char>,
    rule: Seq<char>,
    message: Seq<char>,
) -> DiagView {
    DiagView { file, line, column, severity, rule_id, rule, message, fix: None }
}

/// The findings of lines `0..n` in order, line `i` giving `f(i)`.
pub open spec fn per_line(n: int, f: spec_fn(int) -> Seq<DiagView>) -> Seq<DiagView>
    decreases n,
{
    if n <= 0 {
        Seq::empty()
    } else {
        per_line(n - 1, f) + f(n - 1)
    }
}

pub proof fn lemma_diags_push(v: Seq<Diagnostic>, d: Diagnostic)
    ensures
        diags_view(v.push(d)) == diags_view(v).push(diag_view(d)),
{
    assert(diags_view(v.push(d)) =~= diags_view(v).push(diag_view(d)));
}

/// The finding of a rule at the line and column of offset `off` of the source.
pub open spec fn finding_at(
    t: Seq<char>,
    file: Seq<char>,
    off: int,
    severity: Severity,
    rule_id: Seq<char>,
    rule: Seq<char>,
    message: Seq<char>,
) -> DiagView {
    finding(file, line_no(t, off), col_no(t, off), severity, rule_id, rule, message)
}

/// A diagnostic, with no fix, at the line and column of offset `off`.
pub fn diag_at(
    source: &SourceFile,
    off: usize,
    severity: Severity,
    rule_id: &'static str,
    rule: &'static str,
    message: String,
) -> (d: Diagnostic)
    requires
        off <= source.text().len(),
    ensures
        diag_view(d) == finding_at(source.text(), source.path_view(), off as int, severity, rule_id@, rule@, message@),
{
    let (line, column) = source.line_col(off);
    make_diag(source, line, column, severity, rule_id, rule, message)
}

/// A diagnostic, with no fix, on the line of offset `off` at column `column`.
pub fn diag_at_column(
    source: &SourceFile,
    off: usize,
    column: usize,
    severity: Severity,
    rule_id: &'static str,
    rule: &'static str,
    message: String,
) -> (d: Diagnostic)
    requires
        off <= source.text().len(),
    ensures
        diag_view(d) == finding(source.path_view(), line_no(source.text(), off as int), column as int, severity, rule_id@, rule@, message@),
{
    let (line, _c) = source.line_col(off);
    make_diag(source, line, column, severity, rule_id, rule, message)
}

/// A fix as plain values: start, end and replacement.
pub open spec fn fix_view(f: Fix) -> (int, int, Seq<char>) {
    (f.span.start as int, f.span.end as int, f.replacement@)
}

pub open spec fn fixes_view(v: Seq<Fix>) -> Seq<(int, int, Seq<char>)> {
    v.map_values(|f: Fix| fix_view(f))
}

/// The fixes of lines `0..n` in order, line `i` giving `f(i)`.
pub open spec fn line_fixes(n: int, f: spec_fn(int) -> Seq<(int, int, Seq<char>)>) -> Seq<(int, int, Seq<char>)>
    decreases n,
{
    if n <= 0 {
        Seq::empty()
    } else {
        line_fixes(n - 1, f) + f(n - 1)
    }
}

/// Appends the fix replacing `[start, end)` by `text`.
pub fn push_fix(v: &mut Vec<Fix>, start: usize, end: usize, text: String)
    ensures
        fixes_view(final(v)@) == fixes_view(old(v)@).push((start as int, end as int, text@)),
{
    v.push(Fix { span: Span { start, end }, replacement: text });
    assert(fixes_view(final(v)@) =~= fixes_view(old(v)@).push((start as int, end as int, text@)));
}

/// A diagnostic at a line and column, with no fix.
pub fn make_diag(
    source: &SourceFile,
    line: usize,
    column: usize,
    severity: Severity,
    rule_id: &'static str,
    rule: &'static str,
    message: String,
) -> (d: Diagnostic)
    ensures
        diag_view(d) == finding(source.path_view(), line as int, column as int, severity, rule_id@, rule@, message@),
{
    Diagnostic { file: source.path(), line, column, severity, rule_id, rule, message, fix: None }
}

} // verus!
