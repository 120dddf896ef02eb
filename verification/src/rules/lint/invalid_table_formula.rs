//! W034: the syntax and placement of `#+TBLFM:` lines.
use vstd::prelude::*;
use crate::diagnostic::{Diagnostic, Severity};
use crate::lines::{diag_at_column, diags_view, finding, lemma_diags_push, line_no, line_ranges, line_spans, per_line, DiagView};
use crate::rules::format::regions::{in_regions, is_protected, protected_regions_chars, protected_spec};
use crate::rules::{LintContext, LintRule};
use crate::text::{
    all_digits, contains, eq_ignore_case, find, find_char, find_char_at, push_all, push_str, split_str, starts_with,
    strip_cr, strip_cr_end, string_from, trim, trim_range,
};

verus! {

/// Reports `#+TBLFM:` lines that follow no table, and formulas without `=`,
/// with an empty target or with an ill-formed target reference.
pub struct InvalidTableFormula;

/// What follows `#+TBLFM:` (in any case) on a trimmed line, trimmed.
pub open spec fn tblfm_formulas(tr: Seq<char>) -> Option<Seq<char>> {
    if tr.len() >= 9 && tr[0] == '#' && tr[1] == '+' && eq_ignore_case(tr.subrange(2, 8), "TBLFM:"@) {
        Some(trim(tr.skip(8)))
    } else {
        None
    }
}

/// The trimmed text of line `i`.
pub open spec fn trimmed_line(t: Seq<char>, spans: Seq<(int, int)>, i: int) -> Seq<char> {
    trim(strip_cr(t.subrange(spans[i].0, spans[i].1)))
}

/// Whether a table line comes before line `i`, with only formula lines and
/// protected lines between.
pub open spec fn attached(t: Seq<char>, spans: Seq<(int, int)>, i: int) -> bool
    decreases i,
{
    if i <= 0 {
        false
    } else {
        let j = i - 1;
        let tr = trimmed_line(t, spans, j);
        if in_regions(j, protected_spec(t)) {
            attached(t, spans, j)
        } else if tr.len() > 0 && tr[0] == '|' {
            true
        } else if tblfm_formulas(tr) is Some {
            attached(t, spans, j)
        } else {
            false
        }
    }
}

/// The problem of a column reference's text after `$`, if any.
pub open spec fn col_ref_problem(col: Seq<char>) -> Option<Seq<char>> {
    if col.len() == 0 {
        Some("missing column number after '$'"@)
    } else if col == ">"@ || col == "<"@ || col == "#"@ {
        None
    } else if all_digits(col) && col == "0"@ {
        Some("column reference '$0' is invalid (columns start at 1)"@)
    } else {
        None
    }
}

/// The problem of a reference starting with `@`, if any.
pub open spec fn row_col_problem(r: Seq<char>) -> Option<Seq<char>> {
    let after = r.skip(1);
    if after.len() > 0 && (after[0] == '>' || after[0] == '<' || after[0] == 'I' || after[0] == '#') {
        None
    } else {
        let row_part = match find_char(after, '$') {
            Some(p) => after.take(p),
            None => after,
        };
        if row_part.len() > 0 && !all_digits(row_part) {
            Some("invalid row reference '@"@ + row_part + "'"@)
        } else {
            match find_char(after, '$') {
                Some(p) => if after.skip(p + 1).len() == 0 {
                    Some("missing column number after '$'"@)
                } else {
                    None
                },
                None => None,
            }
        }
    }
}

/// The problem of a target reference, if any.
pub open spec fn reference_problem(reference: Seq<char>) -> Option<Seq<char>> {
    let r = trim(reference);
    if r.len() == 0 {
        Some("empty reference"@)
    } else if contains(r, ".."@) {
        None
    } else if r[0] == '@' {
        row_col_problem(r)
    } else if r[0] == '$' {
        col_ref_problem(r.skip(1))
    } else {
        None
    }
}

/// The message for one trimmed, non-empty formula, if it is wrong.
pub open spec fn formula_problem(f: Seq<char>) -> Option<Seq<char>> {
    match find_char(f, '=') {
        None => Some("formula \""@ + f + "\" is missing '=' assignment"@),
        Some(q) => {
            let target = trim(f.take(q));
            if target.len() == 0 {
                Some("formula has empty target before '='"@)
            } else {
                match reference_problem(target) {
                    Some(m) => Some("formula target: "@ + m),
                    None => None,
                }
            }
        },
    }
}

pub open spec fn formula_finding(file: Seq<char>, line: int, msg: Seq<char>) -> DiagView {
    finding(file, line, 1, Severity::Warning, "W034"@, "invalid-table-formula"@, msg)
}

/// The findings of the formulas `pieces[0..k]`.
pub open spec fn pieces_findings(file: Seq<char>, line: int, pieces: Seq<Seq<char>>, k: int) -> Seq<DiagView>
    decreases k,
{
    if k <= 0 || k > pieces.len() {
        Seq::empty()
    } else {
        let f = trim(pieces[k - 1]);
        pieces_findings(file, line, pieces, k - 1) + if f.len() > 0 {
            match formula_problem(f) {
                Some(m) => seq![formula_finding(file, line, m)],
                None => Seq::empty(),
            }
        } else {
            Seq::empty()
        }
    }
}

/// The findings of line `i`.
pub open spec fn tblfm_line(t: Seq<char>, file: Seq<char>, spans: Seq<(int, int)>, i: int) -> Seq<DiagView> {
    let tr = trimmed_line(t, spans, i);
    let line = line_no(t, spans[i].0);
    if in_regions(i, protected_spec(t)) || (tr.len() > 0 && tr[0] == '|') {
        Seq::empty()
    } else {
        match tblfm_formulas(tr) {
            Some(rest) => {
                let orphan = if attached(t, spans, i) {
                    Seq::empty()
                } else {
                    seq![formula_finding(file, line, "#+TBLFM: is not attached to a table"@)]
                };
                let pieces = split_str(rest, "::"@);
                orphan + pieces_findings(file, line, pieces, pieces.len() as int)
            },
            None => Seq::empty(),
        }
    }
}

fn all_digits_at(s: &[char], lo: usize, hi: usize) -> (b: bool)
    requires
        lo <= hi <= s@.len(),
    ensures
        b == all_digits(s@.subrange(lo as int, hi as int)),
{
    let ghost t = s@.subrange(lo as int, hi as int);
    let mut i = lo;
    while i < hi
        invariant
            lo <= i <= hi <= s@.len(),
            t == s@.subrange(lo as int, hi as int),
            forall|k: int| 0 <= k < i - lo ==> crate::text::is_digit(#[trigger] t[k]),
        decreases hi - i,
    {
        assert(t[i - lo] == s@[i as int]);
        if !crate::text::char_is_digit(s[i]) {
            return false;
        }
        i += 1;
    }
    true
}

fn msg(m: &str) -> (r: Option<Vec<char>>)
    ensures
        r matches Some(v) && v@ == m@,
{
    Some(crate::text::str_chars(m))
}

fn col_problem_at(s: &[char], lo: usize, hi: usize) -> (r: Option<Vec<char>>)
    requires
        lo <= hi <= s@.len(),
    ensures
        match r {
            Some(v) => col_ref_problem(s@.subrange(lo as int, hi as int)) == Some(v@),
            None => col_ref_problem(s@.subrange(lo as int, hi as int)) is None,
        },
{
    if lo == hi {
        return msg("missing column number after '$'");
    }
    if crate::text::eq_str(s, lo, hi, ">") || crate::text::eq_str(s, lo, hi, "<") || crate::text::eq_str(s, lo, hi, "#") {
        return None;
    }
    if all_digits_at(s, lo, hi) && crate::text::eq_str(s, lo, hi, "0") {
        return msg("column reference '$0' is invalid (columns start at 1)");
    }
    None
}

fn row_col_problem_at(s: &[char], lo: usize, hi: usize) -> (r: Option<Vec<char>>)
    requires
        lo < hi <= s@.len(),
    ensures
        match r {
            Some(v) => row_col_problem(s@.subrange(lo as int, hi as int)) == Some(v@),
            None => row_col_problem(s@.subrange(lo as int, hi as int)) is None,
        },
{
    let ghost r = s@.subrange(lo as int, hi as int);
    let a = lo + 1;
    let ghost after = r.skip(1);
    assert(after =~= s@.subrange(a as int, hi as int));
    if a < hi && (s[a] == '>' || s[a] == '<' || s[a] == 'I' || s[a] == '#') {
        assert(after[0] == s@[a as int]);
        return None;
    }
    proof {
        if a < hi {
            assert(after[0] == s@[a as int]);
        }
    }
    let dollar = find_char_at(s, a, hi, '$');
    let re = match dollar {
        Some(p) => p,
        None => hi,
    };
    proof {
        match dollar {
            Some(p) => {
                assert(after.take(p - a) =~= s@.subrange(a as int, p as int));
            },
            None => {
                assert(after =~= s@.subrange(a as int, hi as int));
            },
        }
    }
    if re > a && !all_digits_at(s, a, re) {
        let mut m: Vec<char> = Vec::new();
        push_str(&mut m, "invalid row reference '@");
        push_all(&mut m, &s[a..re]);
        push_str(&mut m, "'");
        return Some(m);
    }
    match dollar {
        Some(p) => {
            assert(after.skip(p - a + 1) =~= s@.subrange(p + 1, hi as int));
            if p + 1 == hi {
                msg("missing column number after '$'")
            } else {
                None
            }
        },
        None => None,
    }
}

fn reference_problem_at(s: &[char], lo: usize, hi: usize) -> (r: Option<Vec<char>>)
    requires
        lo <= hi <= s@.len(),
    ensures
        match r {
            Some(v) => reference_problem(s@.subrange(lo as int, hi as int)) == Some(v@),
            None => reference_problem(s@.subrange(lo as int, hi as int)) is None,
        },
{
    let (a, b) = trim_range(s, lo, hi);
    let ghost rr = s@.subrange(a as int, b as int);
    if a == b {
        return msg("empty reference");
    }
    if crate::text::contains_str(s, a, b, "..") {
        return None;
    }
    assert(rr[0] == s@[a as int]);
    if s[a] == '@' {
        row_col_problem_at(s, a, b)
    } else if s[a] == '$' {
        assert(rr.skip(1) =~= s@.subrange(a + 1, b as int));
        col_problem_at(s, a + 1, b)
    } else {
        None
    }
}

fn formula_problem_at(s: &[char], lo: usize, hi: usize) -> (r: Option<Vec<char>>)
    requires
        lo <= hi <= s@.len(),
    ensures
        match r {
            Some(v) => formula_problem(s@.subrange(lo as int, hi as int)) == Some(v@),
            None => formula_problem(s@.subrange(lo as int, hi as int)) is None,
        },
{
    let ghost f = s@.subrange(lo as int, hi as int);
    match find_char_at(s, lo, hi, '=') {
        None => {
            let mut m: Vec<char> = Vec::new();
            push_str(&mut m, "formula \"");
            push_all(&mut m, &s[lo..hi]);
            push_str(&mut m, "\" is missing '=' assignment");
            Some(m)
        },
        Some(q) => {
            assert(f.take(q - lo) =~= s@.subrange(lo as int, q as int));
            let (ta, tb) = trim_range(s, lo, q);
            if ta == tb {
                return msg("formula has empty target before '='");
            }
            match reference_problem_at(s, ta, tb) {
                Some(p) => {
                    let mut m: Vec<char> = Vec::new();
                    push_str(&mut m, "formula target: ");
                    push_all(&mut m, p.as_slice());
                    Some(m)
                },
                None => None,
            }
        },
    }
}

fn tblfm_formulas_at(s: &[char], lo: usize, hi: usize) -> (r: Option<(usize, usize)>)
    requires
        lo <= hi <= s@.len(),
    ensures
        match r {
            Some((a, b)) => lo <= a <= b <= hi && tblfm_formulas(s@.subrange(lo as int, hi as int)) == Some(
                s@.subrange(a as int, b as int),
            ),
            None => tblfm_formulas(s@.subrange(lo as int, hi as int)) is None,
        },
{
    let ghost tr = s@.subrange(lo as int, hi as int);
    if hi - lo >= 9 && s[lo] == '#' && s[lo + 1] == '+' && crate::text::eq_ignore_case_str(s, lo + 2, lo + 8, "TBLFM:") {
        assert(tr[0] == s@[lo as int] && tr[1] == s@[lo + 1]);
        assert(tr.subrange(2, 8) =~= s@.subrange(lo + 2, lo + 8));
        assert(tr.skip(8) =~= s@.subrange(lo + 8, hi as int));
        Some(trim_range(s, lo + 8, hi))
    } else {
        proof {
            if hi - lo >= 9 {
                assert(tr[0] == s@[lo as int] && tr[1] == s@[lo + 1]);
                assert(tr.subrange(2, 8) =~= s@.subrange(lo + 2, lo + 8));
            }
        }
        None
    }
}

impl LintRule for InvalidTableFormula {
    fn id(&self) -> (r: &'static str)
        ensures
            r@ == "W034"@,
    {
        "W034"
    }

    fn name(&self) -> (r: &'static str)
        ensures
            r@ == "invalid-table-formula"@,
    {
        "invalid-table-formula"
    }

    fn description(&self) -> (r: &'static str)
        ensures
            r@ == "Validate #+TBLFM: formula syntax"@,
    {
        "Validate #+TBLFM: formula syntax"
    }

    fn check(&self, ctx: &LintContext) -> (r: Vec<Diagnostic>)
        ensures
            diags_view(r@) == per_line(
                line_spans(ctx.source.text()).len() as int,
                |i: int| tblfm_line(ctx.source.text(), ctx.source.path_view(), line_spans(ctx.source.text()), i),
            ),
    {
        let s = ctx.source.chars();
        let lines = line_ranges(s);
        let regions = protected_regions_chars(s);
        let sep = crate::text::str_chars("::");
        proof {
            reveal_strlit("::");
        }
        let ghost t = s@;
        let ghost file = ctx.source.path_view();
        let ghost spans = line_spans(t);
        let ghost f = |i: int| tblfm_line(t, file, spans, i);
        let mut out: Vec<Diagnostic> = Vec::new();
        let mut prev = false;
        let mut i: usize = 0;
        while i < lines.len()
            invariant
                i <= lines@.len() == spans.len(),
                t == s@,
                t == ctx.source.text(),
                file == ctx.source.path_view(),
                spans == line_spans(t),
                regions@ == protected_spec(t),
                sep@ == "::"@,
                sep@.len() == 2,
                f == (|i: int| tblfm_line(t, file, spans, i)),
                forall|j: int| 0 <= j < lines@.len() ==> (#[trigger] lines@[j]).0 as int == spans[j].0 && lines@[j].1 as int == spans[j].1,
                forall|j: int| 0 <= j < lines@.len() ==> (#[trigger] lines@[j]).0 <= lines@[j].1 <= s@.len(),
                prev == attached(t, spans, i as int),
                diags_view(out@) == per_line(i as int, f),
            decreases lines.len() - i,
        {
            let (a, e) = lines[i];
            let e1 = strip_cr_end(s, a, e);
            let (ta, tb) = trim_range(s, a, e1);
            let ghost tr = s@.subrange(ta as int, tb as int);
            assert(tr == trimmed_line(t, spans, i as int));
            let ghost before = diags_view(out@);
            if is_protected(i, regions.as_slice()) {
                // The line keeps the table context as it is.
            } else if ta < tb && s[ta] == '|' {
                assert(tr[0] == s@[ta as int]);
                prev = true;
            } else {
                proof {
                    if ta < tb {
                        assert(tr[0] == s@[ta as int]);
                    }
                }
                match tblfm_formulas_at(s, ta, tb) {
                    Some((ra, rb)) => {
                        let ghost line = line_no(t, spans[i as int].0);
                        if !prev {
                            let d = diag_at_column(ctx.source, a, 1, Severity::Warning, "W034", "invalid-table-formula",
                                "#+TBLFM: is not attached to a table".to_owned());
                            proof {
                                lemma_diags_push(out@, d);
                            }
                            out.push(d);
                        }
                        let ghost mid = diags_view(out@);
                        let pieces = crate::text::split_str_ranges(s, ra, rb, sep.as_slice());
                        let ghost pv = crate::text::ranges_view(s@, pieces@);
                        let mut k: usize = 0;
                        while k < pieces.len()
                            invariant
                                k <= pieces@.len(),
                                pv == crate::text::ranges_view(s@, pieces@),
                                forall|j: int| 0 <= j < pieces@.len() ==> (#[trigger] pieces@[j]).0 <= pieces@[j].1 <= s@.len(),
                                a <= s@.len(),
                                i < spans.len(),
                                a as int == spans[i as int].0,
                                t == s@,
                                t == ctx.source.text(),
                                file == ctx.source.path_view(),
                                line == line_no(t, spans[i as int].0),
                                diags_view(out@) == mid + pieces_findings(file, line, pv, k as int),
                            decreases pieces.len() - k,
                        {
                            let (pa, pb) = pieces[k];
                            let (fa, fb) = trim_range(s, pa, pb);
                            assert(pv[k as int] == s@.subrange(pa as int, pb as int));
                            if fa < fb {
                                match formula_problem_at(s, fa, fb) {
                                    Some(m) => {
                                        let d = diag_at_column(ctx.source, a, 1, Severity::Warning, "W034",
                                            "invalid-table-formula", string_from(m.as_slice()));
                                        proof {
                                            lemma_diags_push(out@, d);
                                        }
                                        out.push(d);
                                    },
                                    None => {},
                                }
                            }
                            k += 1;
                        }
                    },
                    None => {
                        prev = false;
                    },
                }
            }
            proof {
                assert(per_line(i + 1, f) == per_line(i as int, f) + f(i as int));
                assert(diags_view(out@) =~= before + f(i as int));
            }
            i += 1;
        }
        out
    }
}

} // verus!
