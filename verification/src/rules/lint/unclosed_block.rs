//! E001: blocks without a matching `#+END_`.
use vstd::prelude::*;
use crate::diagnostic::{Diagnostic, Severity};
use crate::lines::{col_no, diags_view, finding, lemma_diags_push, line_no, line_ranges, line_spans, make_diag, DiagView};
use crate::rules::{LintContext, LintRule};
use crate::text::{copy_range, first_word, first_word_range, push_all, push_str, seq_eq, skip_ws, starts_with, starts_with_str, string_from, strip_cr, strip_cr_end, trim_start};
use crate::unicode::{to_upper, upper_text};

verus! {

/// Reports each `#+END_X` with no open `#+BEGIN_X` before it, then each
/// `#+BEGIN_X` left open at the end, in the order they were opened. An
/// `#+END_X` closes the most recent open `#+BEGIN_X`.
pub struct UnclosedBlock;

/// An open block: its type, line and column.
pub type OpenBlock = (Seq<char>, int, int);

/// Index of the last open block of type `bt`.
pub open spec fn last_open(stack: Seq<OpenBlock>, bt: Seq<char>) -> Option<int>
    decreases stack.len(),
{
    if stack.len() == 0 {
        None
    } else if stack.last().0 == bt {
        Some(stack.len() - 1)
    } else {
        last_open(stack.drop_last(), bt)
    }
}

proof fn lemma_last_open(stack: Seq<OpenBlock>, bt: Seq<char>)
    ensures
        last_open(stack, bt) matches Some(p) ==> 0 <= p < stack.len(),
    decreases stack.len(),
{
    if stack.len() > 0 && stack.last().0 != bt {
        lemma_last_open(stack.drop_last(), bt);
    }
}

pub open spec fn end_message(bt: Seq<char>) -> Seq<char> {
    "#+END_"@ + bt + " without matching #+BEGIN_"@ + bt
}

pub open spec fn begin_message(bt: Seq<char>) -> Seq<char> {
    "#+BEGIN_"@ + bt + " without matching #+END_"@ + bt
}

/// The open blocks and the findings after the first `n` lines.
pub open spec fn block_run(t: Seq<char>, file: Seq<char>, spans: Seq<(int, int)>, n: int) -> (Seq<OpenBlock>, Seq<DiagView>)
    decreases n,
{
    if n <= 0 {
        (Seq::empty(), Seq::empty())
    } else {
        let (stack, out) = block_run(t, file, spans, n - 1);
        let a = spans[n - 1].0;
        let u = upper_text(trim_start(strip_cr(t.subrange(a, spans[n - 1].1))));
        if starts_with(u, "#+BEGIN_"@) {
            let bt = first_word(u.skip(8));
            if bt.len() > 0 {
                (stack.push((bt, line_no(t, a), col_no(t, a))), out)
            } else {
                (stack, out)
            }
        } else if starts_with(u, "#+END_"@) {
            let bt = first_word(u.skip(6));
            if bt.len() > 0 {
                match last_open(stack, bt) {
                    Some(p) => (stack.remove(p), out),
                    None => (stack, out.push(finding(file, line_no(t, a), col_no(t, a), Severity::Error, "E001"@, "unclosed-block"@, end_message(bt)))),
                }
            } else {
                (stack, out)
            }
        } else {
            (stack, out)
        }
    }
}

/// The findings of the blocks left open.
pub open spec fn open_findings(file: Seq<char>, stack: Seq<OpenBlock>) -> Seq<DiagView> {
    stack.map_values(|b: OpenBlock| finding(file, b.1, b.2, Severity::Error, "E001"@, "unclosed-block"@, begin_message(b.0)))
}

/// All findings of the rule on the text `t`.
pub open spec fn unclosed_findings(t: Seq<char>, file: Seq<char>) -> Seq<DiagView> {
    let spans = line_spans(t);
    let (stack, out) = block_run(t, file, spans, spans.len() as int);
    out + open_findings(file, stack)
}

pub open spec fn stack_view(v: Seq<(Vec<char>, usize, usize)>) -> Seq<OpenBlock> {
    v.map_values(|b: (Vec<char>, usize, usize)| (b.0@, b.1 as int, b.2 as int))
}

/// The index of the last block of type `bt` in `stack`.
fn rposition(stack: &Vec<(Vec<char>, usize, usize)>, bt: &[char]) -> (r: Option<usize>)
    ensures
        r matches Some(p) ==> last_open(stack_view(stack@), bt@) == Some(p as int),
        r is None ==> last_open(stack_view(stack@), bt@) is None,
{
    let ghost sv = stack_view(stack@);
    let mut k = stack.len();
    assert(sv.take(k as int) =~= sv);
    while k > 0
        invariant
            k <= stack@.len(),
            sv == stack_view(stack@),
            last_open(sv, bt@) == last_open(sv.take(k as int), bt@),
        decreases k,
    {
        assert(sv.take(k as int).drop_last() =~= sv.take(k - 1));
        assert(sv.take(k as int).last() == sv[k - 1]);
        if seq_eq(stack[k - 1].0.as_slice(), bt) {
            return Some(k - 1);
        }
        k -= 1;
    }
    None
}

impl LintRule for UnclosedBlock {
    fn id(&self) -> (r: &'static str)
        ensures
            r@ == "E001"@,
    {
        "E001"
    }

    fn name(&self) -> (r: &'static str)
        ensures
            r@ == "unclosed-block"@,
    {
        "unclosed-block"
    }

    fn description(&self) -> (r: &'static str)
        ensures
            r@ == "Detect blocks without matching #+END_"@,
    {
        "Detect blocks without matching #+END_"
    }

    fn check(&self, ctx: &LintContext) -> (r: Vec<Diagnostic>)
        ensures
            diags_view(r@) == unclosed_findings(ctx.source.text(), ctx.source.path_view()),
    {
        let s = ctx.source.chars();
        let lines = line_ranges(s);
        let ghost t = s@;
        let ghost file = ctx.source.path_view();
        let ghost spans = line_spans(t);
        let mut stack: Vec<(Vec<char>, usize, usize)> = Vec::new();
        let mut out: Vec<Diagnostic> = Vec::new();
        let mut i: usize = 0;
        while i < lines.len()
            invariant
                i <= lines@.len() == spans.len(),
                t == s@,
                t == ctx.source.text(),
                file == ctx.source.path_view(),
                spans == line_spans(t),
                forall|j: int| 0 <= j < lines@.len() ==> (#[trigger] lines@[j]).0 as int == spans[j].0 && lines@[j].1 as int == spans[j].1,
                forall|j: int| 0 <= j < lines@.len() ==> (#[trigger] lines@[j]).0 <= lines@[j].1 <= s@.len(),
                (stack_view(stack@), diags_view(out@)) == block_run(t, file, spans, i as int),
            decreases lines.len() - i,
        {
            let (a, e) = lines[i];
            let e1 = strip_cr_end(s, a, e);
            let k = skip_ws(s, a, e1);
            let upper = to_upper(&s[k..e1]);
            let us = upper.as_slice();
            assert(us@.subrange(0, us@.len() as int) =~= us@);
            assert(us@ == upper_text(trim_start(strip_cr(t.subrange(a as int, e as int)))));
            if starts_with_str(us, 0, us.len(), "#+BEGIN_") {
                proof {
                    reveal_strlit("#+BEGIN_");
                }
                let (w0, w1) = first_word_range(us, 8, us.len());
                assert(us@.subrange(8, us@.len() as int) =~= us@.skip(8));
                if w0 < w1 {
                    let bt = copy_range(us, w0, w1);
                    let (line, col) = ctx.source.line_col(a);
                    let ghost before = stack_view(stack@);
                    stack.push((bt, line, col));
                    assert(stack_view(stack@) =~= before.push((us@.subrange(w0 as int, w1 as int), line as int, col as int)));
                }
            } else if starts_with_str(us, 0, us.len(), "#+END_") {
                proof {
                    reveal_strlit("#+END_");
                }
                let (w0, w1) = first_word_range(us, 6, us.len());
                assert(us@.subrange(6, us@.len() as int) =~= us@.skip(6));
                if w0 < w1 {
                    let bt = copy_range(us, w0, w1);
                    match rposition(&stack, bt.as_slice()) {
                        Some(p) => {
                            let ghost before = stack_view(stack@);
                            proof {
                                lemma_last_open(before, bt@);
                            }
                            stack.remove(p);
                            assert(stack_view(stack@) =~= before.remove(p as int));
                        },
                        None => {
                            let mut msg: Vec<char> = Vec::new();
                            push_str(&mut msg, "#+END_");
                            push_all(&mut msg, bt.as_slice());
                            push_str(&mut msg, " without matching #+BEGIN_");
                            push_all(&mut msg, bt.as_slice());
                            let (line, col) = ctx.source.line_col(a);
                            let d = make_diag(ctx.source, line, col, Severity::Error, "E001", "unclosed-block", string_from(msg.as_slice()));
                            proof {
                                lemma_diags_push(out@, d);
                            }
                            out.push(d);
                        },
                    }
                }
            }
            i += 1;
        }
        let ghost base = diags_view(out@);
        let ghost final_stack = stack_view(stack@);
        let mut j: usize = 0;
        while j < stack.len()
            invariant
                j <= stack@.len(),
                final_stack == stack_view(stack@),
                file == ctx.source.path_view(),
                diags_view(out@) == base + open_findings(file, final_stack.take(j as int)),
            decreases stack.len() - j,
        {
            let mut msg: Vec<char> = Vec::new();
            push_str(&mut msg, "#+BEGIN_");
            push_all(&mut msg, stack[j].0.as_slice());
            push_str(&mut msg, " without matching #+END_");
            push_all(&mut msg, stack[j].0.as_slice());
            let d = make_diag(ctx.source, stack[j].1, stack[j].2, Severity::Error, "E001", "unclosed-block", string_from(msg.as_slice()));
            proof {
                lemma_diags_push(out@, d);
                assert(final_stack.take(j + 1) =~= final_stack.take(j as int).push(final_stack[j as int]));
                assert(open_findings(file, final_stack.take(j + 1)) =~= open_findings(file, final_stack.take(j as int)).push(diag_view_of_open(file, final_stack[j as int])));
            }
            out.push(d);
            j += 1;
        }
        proof {
            assert(final_stack.take(stack@.len() as int) =~= final_stack);
        }
        out
    }
}

pub open spec fn diag_view_of_open(file: Seq<char>, b: OpenBlock) -> DiagView {
    finding(file, b.1, b.2, Severity::Error, "E001"@, "unclosed-block"@, begin_message(b.0))
}

} // verus!
