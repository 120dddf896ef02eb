//! W017: old `#+INCLUDE: "file" BACKEND` syntax.
use vstd::prelude::*;
use crate::diagnostic::{Diagnostic, Severity};
use crate::lines::{diag_at, diags_view, finding_at, lemma_diags_push, line_ranges, line_spans, per_line, DiagView};
use crate::rules::heading::{is_one_of, word_is_one_of};
use crate::rules::{LintContext, LintRule};
use crate::text::{
    eq_ignore_case, eq_ignore_case_str, find_char, find_char_at, first_word, first_word_range, push_all,
    push_str, skip_ws, starts_with, starts_with_str, str_chars, string_from, strip_cr, strip_cr_end, trim,
    trim_range, trim_start,
};
use crate::unicode::{lower_text, to_lower, to_upper, upper_text};

verus! {

/// Reports an `#+INCLUDE:` line whose quoted path is followed by a bare
/// export backend name in place of `export BACKEND`.
pub struct ObsoleteIncludeMarkup;

/// The backends that the old syntax named directly.
pub open spec fn deprecated_backends() -> Seq<Seq<char>> {
    seq!["ASCII"@, "BEAMER"@, "HTML"@, "LATEX"@, "MAN"@, "MARKDOWN"@, "MD"@, "ODT"@, "ORG"@, "TEXINFO"@]
}

fn backend_list() -> (v: Vec<Vec<char>>)
    ensures
        v@.map_values(|w: Vec<char>| w@) == deprecated_backends(),
{
    let mut v: Vec<Vec<char>> = Vec::new();
    v.push(str_chars("ASCII"));
    v.push(str_chars("BEAMER"));
    v.push(str_chars("HTML"));
    v.push(str_chars("LATEX"));
    v.push(str_chars("MAN"));
    v.push(str_chars("MARKDOWN"));
    v.push(str_chars("MD"));
    v.push(str_chars("ODT"));
    v.push(str_chars("ORG"));
    v.push(str_chars("TEXINFO"));
    assert(v@.map_values(|w: Vec<char>| w@) =~= deprecated_backends());
    v
}

/// The text after the closing quote of the path of an `#+INCLUDE:` line,
/// trimmed: `None` unless the line is such a line with a quoted path.
pub open spec fn include_after_path(raw: Seq<char>) -> Option<Seq<char>> {
    let tr = trim_start(raw);
    if tr.len() >= 10 && tr[0] == '#' && tr[1] == '+' && eq_ignore_case(tr.subrange(2, 10), "INCLUDE:"@) {
        let rest = trim(tr.skip(10));
        if rest.len() > 0 && rest[0] == '"' {
            match find_char(rest.skip(1), '"') {
                Some(q) => Some(trim(rest.skip(1).skip(q + 1))),
                None => None,
            }
        } else {
            None
        }
    } else {
        None
    }
}

pub open spec fn include_message(w: Seq<char>) -> Seq<char> {
    "old #+INCLUDE: syntax — use 'export "@ + lower_text(w) + "' instead of '"@ + w + "'"@
}

/// The finding of line `i`.
pub open spec fn include_line(t: Seq<char>, file: Seq<char>, spans: Seq<(int, int)>, i: int) -> Seq<DiagView> {
    match include_after_path(strip_cr(t.subrange(spans[i].0, spans[i].1))) {
        Some(after) => {
            let w = upper_text(first_word(after));
            if is_one_of(deprecated_backends(), w) && !starts_with(upper_text(after), "EXPORT"@) {
                seq![finding_at(t, file, spans[i].0, Severity::Warning, "W017"@, "obsolete-include-markup"@, include_message(w))]
            } else {
                Seq::empty()
            }
        },
        None => Seq::empty(),
    }
}

/// The range of the text after the quoted path of an `#+INCLUDE:` line in `s[lo..hi]`.
fn include_after_path_at(s: &[char], lo: usize, hi: usize) -> (r: Option<(usize, usize)>)
    requires
        lo <= hi <= s@.len(),
    ensures
        r matches Some(p) ==> lo <= p.0 <= p.1 <= hi && include_after_path(s@.subrange(lo as int, hi as int)) == Some(s@.subrange(p.0 as int, p.1 as int)),
        r is None ==> include_after_path(s@.subrange(lo as int, hi as int)) is None,
{
    let ghost raw = s@.subrange(lo as int, hi as int);
    let b = skip_ws(s, lo, hi);
    let ghost tr = trim_start(raw);
    assert(tr == s@.subrange(b as int, hi as int));
    if hi - b >= 10 && s[b] == '#' && s[b + 1] == '+' && eq_ignore_case_str(s, b + 2, b + 10, "INCLUDE:") {
        assert(tr.subrange(2, 10) =~= s@.subrange(b + 2, b + 10));
        assert(tr[0] == s@[b as int] && tr[1] == s@[b + 1]);
        let (r0, r1) = trim_range(s, b + 10, hi);
        assert(s@.subrange(b + 10, hi as int) =~= tr.skip(10));
        let ghost rest = s@.subrange(r0 as int, r1 as int);
        if r0 < r1 && s[r0] == '"' {
            assert(rest[0] == s@[r0 as int]);
            assert(s@.subrange(r0 + 1, r1 as int) =~= rest.skip(1));
            match find_char_at(s, r0 + 1, r1, '"') {
                Some(q) => {
                    let (p0, p1) = trim_range(s, q + 1, r1);
                    assert(s@.subrange(q + 1, r1 as int) =~= rest.skip(1).skip(q - r0));
                    Some((p0, p1))
                },
                None => None,
            }
        } else {
            proof {
                if r0 < r1 {
                    assert(rest[0] == s@[r0 as int]);
                }
            }
            None
        }
    } else {
        proof {
            if hi - b >= 10 {
                assert(tr.subrange(2, 10) =~= s@.subrange(b + 2, b + 10));
                assert(tr[0] == s@[b as int] && tr[1] == s@[b + 1]);
            }
        }
        None
    }
}

impl LintRule for ObsoleteIncludeMarkup {
    fn id(&self) -> (r: &'static str)
        ensures
            r@ == "W017"@,
    {
        "W017"
    }

    fn name(&self) -> (r: &'static str)
        ensures
            r@ == "obsolete-include-markup"@,
    {
        "obsolete-include-markup"
    }

    fn description(&self) -> (r: &'static str)
        ensures
            r@ == "Detect old-style #+INCLUDE: backend syntax"@,
    {
        "Detect old-style #+INCLUDE: backend syntax"
    }

    fn check(&self, ctx: &LintContext) -> (r: Vec<Diagnostic>)
        ensures
            diags_view(r@) == per_line(
                line_spans(ctx.source.text()).len() as int,
                |i: int| include_line(ctx.source.text(), ctx.source.path_view(), line_spans(ctx.source.text()), i),
            ),
    {
        let s = ctx.source.chars();
        let lines = line_ranges(s);
        let backends = backend_list();
        let ghost t = s@;
        let ghost file = ctx.source.path_view();
        let ghost spans = line_spans(t);
        let ghost f = |i: int| include_line(t, file, spans, i);
        let mut out: Vec<Diagnostic> = Vec::new();
        let mut i: usize = 0;
        while i < lines.len()
            invariant
                i <= lines@.len() == spans.len(),
                t == s@,
                t == ctx.source.text(),
                file == ctx.source.path_view(),
                spans == line_spans(t),
                backends@.map_values(|w: Vec<char>| w@) == deprecated_backends(),
                f == (|i: int| include_line(t, file, spans, i)),
                forall|j: int| 0 <= j < lines@.len() ==> (#[trigger] lines@[j]).0 as int == spans[j].0 && lines@[j].1 as int == spans[j].1,
                forall|j: int| 0 <= j < lines@.len() ==> (#[trigger] lines@[j]).0 <= lines@[j].1 <= s@.len(),
                diags_view(out@) == per_line(i as int, f),
            decreases lines.len() - i,
        {
            let (a, e) = lines[i];
            let e1 = strip_cr_end(s, a, e);
            match include_after_path_at(s, a, e1) {
                Some((p0, p1)) => {
                    let (w0, w1) = first_word_range(s, p0, p1);
                    let w = to_upper(&s[w0..w1]);
                    let after_upper = to_upper(&s[p0..p1]);
                    let au = after_upper.as_slice();
                    assert(au@.subrange(0, au@.len() as int) =~= au@);
                    let ws = w.as_slice();
                    assert(ws@.subrange(0, ws@.len() as int) =~= ws@);
                    if word_is_one_of(backends.as_slice(), ws, 0, ws.len()) && !starts_with_str(au, 0, au.len(), "EXPORT") {
                        let lower = to_lower(ws);
                        let mut msg: Vec<char> = Vec::new();
                        push_str(&mut msg, "old #+INCLUDE: syntax — use 'export ");
                        push_all(&mut msg, lower.as_slice());
                        push_str(&mut msg, "' instead of '");
                        push_all(&mut msg, ws);
                        push_str(&mut msg, "'");
                        let d = diag_at(ctx.source, a, Severity::Warning, "W017", "obsolete-include-markup", string_from(msg.as_slice()));
                        proof {
                            lemma_diags_push(out@, d);
                        }
                        out.push(d);
                    }
                },
                None => {},
            }
            proof {
                assert(per_line(i + 1, f) == per_line(i as int, f) + f(i as int));
            }
            i += 1;
        }
        out
    }
}

} // verus!
