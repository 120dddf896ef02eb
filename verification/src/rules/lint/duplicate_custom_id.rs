//! E002: duplicate `:CUSTOM_ID:` values.
use vstd::prelude::*;
use crate::diagnostic::{Diagnostic, Severity};
use crate::lines::{diag_at, diags_view, finding_at, lemma_diags_push, line_no, line_ranges, line_spans, DiagView};
use crate::rules::{LintContext, LintRule};
use crate::text::{
    copy_range, dec_digits, push_all, push_dec, push_str, seq_eq, starts_with, starts_with_str, string_from, strip_cr,
    strip_cr_end, trim, trim_range,
};

verus! {

/// Reports each `:CUSTOM_ID:` line whose value was already defined on an
/// earlier line.
pub struct DuplicateCustomId;

/// The value of a trimmed `:CUSTOM_ID: value` line, when it is not empty.
pub open spec fn custom_id_of(trimmed: Seq<char>) -> Option<Seq<char>> {
    if starts_with(trimmed, ":CUSTOM_ID:"@) {
        let v = trim(trimmed.skip(11));
        if v.len() == 0 {
            None
        } else {
            Some(v)
        }
    } else {
        None
    }
}

/// The line on which `id` was first defined, in the list of first definitions.
pub open spec fn first_line(seen: Seq<(Seq<char>, int)>, id: Seq<char>) -> Option<int>
    decreases seen.len(),
{
    if seen.len() == 0 {
        None
    } else if seen[0].0 == id {
        Some(seen[0].1)
    } else {
        first_line(seen.drop_first(), id)
    }
}

pub open spec fn duplicate_message(id: Seq<char>, first: int) -> Seq<char> {
    "duplicate CUSTOM_ID \""@ + id + "\" (first defined at line "@ + dec_digits(first as nat) + ")"@
}

/// The first definitions and the findings of the first `n` lines.
pub open spec fn duplicate_run(t: Seq<char>, file: Seq<char>, spans: Seq<(int, int)>, n: int) -> (Seq<(Seq<char>, int)>, Seq<DiagView>)
    decreases n,
{
    if n <= 0 {
        (Seq::empty(), Seq::empty())
    } else {
        let (seen, out) = duplicate_run(t, file, spans, n - 1);
        let a = spans[n - 1].0;
        match custom_id_of(trim(strip_cr(t.subrange(a, spans[n - 1].1)))) {
            Some(id) => match first_line(seen, id) {
                Some(first) => (seen, out.push(finding_at(t, file, a, Severity::Error, "E002"@, "duplicate-custom-id"@, duplicate_message(id, first)))),
                None => (seen.push((id, line_no(t, a))), out),
            },
            None => (seen, out),
        }
    }
}

proof fn lemma_first_line_push(seen: Seq<(Seq<char>, int)>, p: (Seq<char>, int), id: Seq<char>)
    ensures
        first_line(seen.push(p), id) == match first_line(seen, id) {
            Some(l) => Some(l),
            None => if p.0 == id { Some(p.1) } else { None },
        },
    decreases seen.len(),
{
    if seen.len() > 0 {
        assert(seen.push(p).drop_first() =~= seen.drop_first().push(p));
        assert(seen.push(p)[0] == seen[0]);
        lemma_first_line_push(seen.drop_first(), p, id);
    } else {
        assert(seen.push(p).drop_first() =~= Seq::<(Seq<char>, int)>::empty());
        assert(seen.push(p)[0] == p);
        assert(first_line(Seq::<(Seq<char>, int)>::empty(), id) is None);
    }
}

/// The line recorded for `id` in `seen`.
fn lookup_first(seen: &Vec<(Vec<char>, usize)>, id: &[char]) -> (r: Option<usize>)
    ensures
        r matches Some(l) ==> first_line(seen@.map_values(|p: (Vec<char>, usize)| (p.0@, p.1 as int)), id@) == Some(l as int),
        r is None ==> first_line(seen@.map_values(|p: (Vec<char>, usize)| (p.0@, p.1 as int)), id@) is None,
{
    let ghost sv = seen@.map_values(|p: (Vec<char>, usize)| (p.0@, p.1 as int));
    assert(sv.skip(0) =~= sv);
    let mut k: usize = 0;
    while k < seen.len()
        invariant
            k <= seen@.len(),
            sv == seen@.map_values(|p: (Vec<char>, usize)| (p.0@, p.1 as int)),
            first_line(sv, id@) == first_line(sv.skip(k as int), id@),
        decreases seen.len() - k,
    {
        assert(sv.skip(k as int).drop_first() =~= sv.skip(k + 1));
        assert(sv.skip(k as int)[0] == sv[k as int]);
        if seq_eq(seen[k].0.as_slice(), id) {
            return Some(seen[k].1);
        }
        k += 1;
    }
    None
}

impl LintRule for DuplicateCustomId {
    fn id(&self) -> (r: &'static str)
        ensures
            r@ == "E002"@,
    {
        "E002"
    }

    fn name(&self) -> (r: &'static str)
        ensures
            r@ == "duplicate-custom-id"@,
    {
        "duplicate-custom-id"
    }

    fn description(&self) -> (r: &'static str)
        ensures
            r@ == "Detect duplicate :CUSTOM_ID: values"@,
    {
        "Detect duplicate :CUSTOM_ID: values"
    }

    fn check(&self, ctx: &LintContext) -> (r: Vec<Diagnostic>)
        ensures
            diags_view(r@) == duplicate_run(
                ctx.source.text(),
                ctx.source.path_view(),
                line_spans(ctx.source.text()),
                line_spans(ctx.source.text()).len() as int,
            ).1,
    {
        let s = ctx.source.chars();
        let lines = line_ranges(s);
        let ghost t = s@;
        let ghost file = ctx.source.path_view();
        let ghost spans = line_spans(t);
        let mut seen: Vec<(Vec<char>, usize)> = Vec::new();
        let mut out: Vec<Diagnostic> = Vec::new();
        let mut i: usize = 0;
        while i < lines.len()
            invariant
                i <= lines@.len() == spans.len(),
                t == s@,
                t == ctx.source.text(),
                file == ctx.source.path_view(),
                spans == line_spans(t),
                forall|j: int| 0 <= j < lines@.len() ==> (#[trigger] lines@[j]).0 as int == spans[j].0 && lines@[j].1 as int == spans[j].1,
                forall|j: int| 0 <= j < lines@.len() ==> (#[trigger] lines@[j]).0 <= lines@[j].1 <= s@.len(),
                seen@.map_values(|p: (Vec<char>, usize)| (p.0@, p.1 as int)) == duplicate_run(t, file, spans, i as int).0,
                diags_view(out@) == duplicate_run(t, file, spans, i as int).1,
            decreases lines.len() - i,
        {
            let (a, e) = lines[i];
            let e1 = strip_cr_end(s, a, e);
            let (t0, t1) = trim_range(s, a, e1);
            assert(s@.subrange(t0 as int, t1 as int) == trim(strip_cr(t.subrange(a as int, e as int))));
            if starts_with_str(s, t0, t1, ":CUSTOM_ID:") {
                proof {
                    reveal_strlit(":CUSTOM_ID:");
                }
                let (v0, v1) = trim_range(s, t0 + 11, t1);
                assert(s@.subrange(t0 + 11, t1 as int) =~= s@.subrange(t0 as int, t1 as int).skip(11));
                if v0 < v1 {
                    let id = copy_range(s, v0, v1);
                    assert(id@ == s@.subrange(v0 as int, v1 as int));
                    let ghost sv = seen@.map_values(|p: (Vec<char>, usize)| (p.0@, p.1 as int));
                    let found = lookup_first(&seen, id.as_slice());
                    match found {
                        Some(first) => {
                            let mut msg: Vec<char> = Vec::new();
                            push_str(&mut msg, "duplicate CUSTOM_ID \"");
                            push_all(&mut msg, id.as_slice());
                            push_str(&mut msg, "\" (first defined at line ");
                            push_dec(&mut msg, first);
                            push_str(&mut msg, ")");
                            let d = diag_at(ctx.source, a, Severity::Error, "E002", "duplicate-custom-id", string_from(msg.as_slice()));
                            proof {
                                lemma_diags_push(out@, d);
                            }
                            out.push(d);
                        },
                        None => {
                            let (line, _col) = ctx.source.line_col(a);
                            proof {
                                lemma_first_line_push(sv, (id@, line as int), id@);
                            }
                            seen.push((id, line));
                            proof {
                                assert(seen@.map_values(|p: (Vec<char>, usize)| (p.0@, p.1 as int)) =~= sv.push((id@, line as int)));
                            }
                        },
                    }
                }
            }
            i += 1;
        }
        out
    }
}

} // verus!
