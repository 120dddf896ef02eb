//! W022: `#+SETUPFILE:` naming a local file that does not exist.
use vstd::prelude::*;
use crate::archive::{join_path, parent_of};
use crate::diagnostic::{Diagnostic, Severity};
use crate::lines::{diag_at, diags_view, finding_at, lemma_diags_push, line_ranges, line_spans, per_line, DiagView};
use crate::rules::{LintContext, LintRule};
use crate::text::{eq_ignore_case, push_all, push_str, skip_ws, starts_with, strip_cr, strip_cr_end, string_from, trim, trim_range, trim_start};

verus! {

/// Reports a `#+SETUPFILE:` whose local path, resolved against the source
/// file's directory, does not exist; URLs are not checked.
pub struct NonExistentSetupfile;

/// Calls `Path::exists` on `p`. Nothing is promised of the result: it
/// depends on what is on disk.
#[verifier::external_body]
fn path_exists(p: &str) -> bool {
    std::path::Path::new(p).exists()
}

/// The path that a `#+SETUPFILE:` line names, without quotes, when the line
/// is one and the path is not empty nor a URL.
pub open spec fn setupfile_path(raw: Seq<char>) -> Option<Seq<char>> {
    let tr = trim_start(raw);
    if tr.len() >= 12 && tr[0] == '#' && tr[1] == '+' && eq_ignore_case(tr.subrange(2, 12), "SETUPFILE:"@) {
        let p0 = trim(tr.skip(12));
        let p = if p0.len() >= 2 && p0[0] == '"' && p0.last() == '"' {
            p0.subrange(1, p0.len() - 1)
        } else {
            p0
        };
        if p.len() > 0 && !starts_with(p, "http://"@) && !starts_with(p, "https://"@) {
            Some(p)
        } else {
            None
        }
    } else {
        None
    }
}

pub open spec fn setup_message(p: Seq<char>) -> Seq<char> {
    "#+SETUPFILE: '"@ + p + "' does not exist"@
}

/// The finding of line `i`, given whether the resolved path exists.
pub open spec fn setup_line(t: Seq<char>, file: Seq<char>, spans: Seq<(int, int)>, i: int, exists: bool) -> Seq<DiagView> {
    match setupfile_path(strip_cr(t.subrange(spans[i].0, spans[i].1))) {
        Some(p) => if exists {
            Seq::empty()
        } else {
            seq![finding_at(t, file, spans[i].0, Severity::Warning, "W022"@, "non-existent-setupfile"@, setup_message(p))]
        },
        None => Seq::empty(),
    }
}

/// The findings of the text, `ex[i]` telling whether the file that line `i` names exists.
pub open spec fn setup_findings(t: Seq<char>, file: Seq<char>, ex: Seq<bool>) -> Seq<DiagView> {
    per_line(line_spans(t).len() as int, |i: int| setup_line(t, file, line_spans(t), i, ex[i]))
}

proof fn lemma_per_line_congruent(n: int, f: spec_fn(int) -> Seq<DiagView>, g: spec_fn(int) -> Seq<DiagView>)
    requires
        forall|j: int| 0 <= j < n ==> #[trigger] f(j) == g(j),
    ensures
        per_line(n, f) == per_line(n, g),
    decreases n,
{
    if n > 0 {
        lemma_per_line_congruent(n - 1, f, g);
    }
}

fn setupfile_path_at(s: &[char], lo: usize, hi: usize) -> (r: Option<(usize, usize)>)
    requires
        lo <= hi <= s@.len(),
    ensures
        match r {
            Some((a, b)) => lo <= a <= b <= hi && setupfile_path(s@.subrange(lo as int, hi as int)) == Some(
                s@.subrange(a as int, b as int),
            ),
            None => setupfile_path(s@.subrange(lo as int, hi as int)) is None,
        },
{
    let a = skip_ws(s, lo, hi);
    let ghost tr = s@.subrange(a as int, hi as int);
    if !(hi - a >= 12 && s[a] == '#' && s[a + 1] == '+' && crate::text::eq_ignore_case_str(s, a + 2, a + 12, "SETUPFILE:")) {
        proof {
            if hi - a >= 12 {
                assert(tr[0] == s@[a as int] && tr[1] == s@[a + 1]);
                assert(tr.subrange(2, 12) =~= s@.subrange(a + 2, a + 12));
            }
        }
        return None;
    }
    assert(tr[0] == s@[a as int] && tr[1] == s@[a + 1]);
    assert(tr.subrange(2, 12) =~= s@.subrange(a + 2, a + 12));
    assert(tr.skip(12) =~= s@.subrange(a + 12, hi as int));
    let (p0a, p0b) = trim_range(s, a + 12, hi);
    let ghost p0 = s@.subrange(p0a as int, p0b as int);
    let (pa, pb) = if p0b - p0a >= 2 && s[p0a] == '"' && s[p0b - 1] == '"' {
        assert(p0[0] == s@[p0a as int] && p0.last() == s@[p0b - 1]);
        assert(p0.subrange(1, p0.len() - 1) =~= s@.subrange(p0a + 1, p0b - 1));
        (p0a + 1, p0b - 1)
    } else {
        proof {
            if p0b - p0a >= 2 {
                assert(p0[0] == s@[p0a as int] && p0.last() == s@[p0b - 1]);
            }
        }
        (p0a, p0b)
    };
    if pa < pb && !crate::text::starts_with_str(s, pa, pb, "http://") && !crate::text::starts_with_str(s, pa, pb, "https://") {
        Some((pa, pb))
    } else {
        None
    }
}

impl LintRule for NonExistentSetupfile {
    fn id(&self) -> (r: &'static str)
        ensures
            r@ == "W022"@,
    {
        "W022"
    }

    fn name(&self) -> (r: &'static str)
        ensures
            r@ == "non-existent-setupfile"@,
    {
        "non-existent-setupfile"
    }

    fn description(&self) -> (r: &'static str)
        ensures
            r@ == "Detect #+SETUPFILE: pointing to non-existent files"@,
    {
        "Detect #+SETUPFILE: pointing to non-existent files"
    }

    /// Whether each resolved path exists is read from the disk, so the
    /// findings are those of some answer per line.
    fn check(&self, ctx: &LintContext) -> (r: Vec<Diagnostic>)
        ensures
            exists|ex: Seq<bool>|
                ex.len() == line_spans(ctx.source.text()).len() && diags_view(r@) == #[trigger] setup_findings(
                    ctx.source.text(),
                    ctx.source.path_view(),
                    ex,
                ),
    {
        let s = ctx.source.chars();
        let lines = line_ranges(s);
        let src_path = ctx.source.path();
        let base = match parent_of(src_path.as_str()) {
            Some(p) => p,
            None => ".".to_owned(),
        };
        let ghost t = s@;
        let ghost file = ctx.source.path_view();
        let ghost spans = line_spans(t);
        let ghost mut seen: Seq<bool> = Seq::empty();
        let mut out: Vec<Diagnostic> = Vec::new();
        let mut i: usize = 0;
        while i < lines.len()
            invariant
                i <= lines@.len() == spans.len(),
                t == s@,
                t == ctx.source.text(),
                file == ctx.source.path_view(),
                spans == line_spans(t),
                seen.len() == i,
                forall|j: int| 0 <= j < lines@.len() ==> (#[trigger] lines@[j]).0 as int == spans[j].0 && lines@[j].1 as int == spans[j].1,
                forall|j: int| 0 <= j < lines@.len() ==> (#[trigger] lines@[j]).0 <= lines@[j].1 <= s@.len(),
                diags_view(out@) == per_line(i as int, |j: int| setup_line(t, file, spans, j, seen[j])),
            decreases lines.len() - i,
        {
            let (a, e) = lines[i];
            let e1 = strip_cr_end(s, a, e);
            assert(s@.subrange(a as int, e1 as int) == strip_cr(t.subrange(a as int, e as int)));
            let ghost before = diags_view(out@);
            let mut exists = false;
            match setupfile_path_at(s, a, e1) {
                Some((pa, pb)) => {
                    let p = crate::text::string_of(s, pa, pb);
                    let resolved = join_path(base.as_str(), p.as_str());
                    exists = path_exists(resolved.as_str());
                    if !exists {
                        let mut m: Vec<char> = Vec::new();
                        push_str(&mut m, "#+SETUPFILE: '");
                        push_all(&mut m, &s[pa..pb]);
                        push_str(&mut m, "' does not exist");
                        let d = diag_at(ctx.source, a, Severity::Warning, "W022", "non-existent-setupfile", string_from(m.as_slice()));
                        proof {
                            lemma_diags_push(out@, d);
                        }
                        out.push(d);
                    }
                },
                None => {},
            }
            proof {
                let old_seen = seen;
                seen = seen.push(exists);
                let f_old = |j: int| setup_line(t, file, spans, j, old_seen[j]);
                let f_new = |j: int| setup_line(t, file, spans, j, seen[j]);
                lemma_per_line_congruent(i as int, f_old, f_new);
                assert(per_line(i + 1, f_new) == per_line(i as int, f_new) + f_new(i as int));
                assert(diags_view(out@) =~= before + f_new(i as int));
            }
            i += 1;
        }
        proof {
            assert(diags_view(out@) == setup_findings(t, file, seen));
        }
        out
    }
}

} // verus!
