//! F001: trailing whitespace.
use vstd::prelude::*;
use crate::diagnostic::Fix;
use crate::lines::{fixes_view, line_fixes, line_ranges, line_spans, push_fix};
use crate::rules::{FormatContext, FormatRule};
use crate::text::{rskip_ws, strip_cr, strip_cr_end, trail_ws};

verus! {

/// Removes the whitespace at the end of every line (before a carriage return).
pub struct TrailingWhitespace;

/// The fix of line `i`: the removal of its trailing whitespace, if any.
pub open spec fn trailing_line(t: Seq<char>, spans: Seq<(int, int)>, i: int) -> Seq<(int, int, Seq<char>)> {
    let raw = strip_cr(t.subrange(spans[i].0, spans[i].1));
    let n = trail_ws(raw) as int;
    if n > 0 {
        seq![(spans[i].0 + raw.len() - n, spans[i].0 + raw.len(), Seq::<char>::empty())]
    } else {
        Seq::empty()
    }
}

impl FormatRule for TrailingWhitespace {
    fn id(&self) -> (r: &'static str)
        ensures
            r@ == "F001"@,
    {
        "F001"
    }

    fn name(&self) -> (r: &'static str)
        ensures
            r@ == "trailing-whitespace"@,
    {
        "trailing-whitespace"
    }

    fn description(&self) -> (r: &'static str)
        ensures
            r@ == "Remove trailing whitespace from all lines"@,
    {
        "Remove trailing whitespace from all lines"
    }

    fn format(&self, ctx: &FormatContext) -> (r: Vec<Fix>)
        ensures
            fixes_view(r@) == line_fixes(
                line_spans(ctx.source.text()).len() as int,
                |i: int| trailing_line(ctx.source.text(), line_spans(ctx.source.text()), i),
            ),
    {
        let s = ctx.source.chars();
        let lines = line_ranges(s);
        let ghost t = s@;
        let ghost spans = line_spans(t);
        let ghost f = |i: int| trailing_line(t, spans, i);
        let mut out: Vec<Fix> = Vec::new();
        let mut i: usize = 0;
        while i < lines.len()
            invariant
                i <= lines@.len() == spans.len(),
                t == s@,
                t == ctx.source.text(),
                spans == line_spans(t),
                f == (|i: int| trailing_line(t, spans, i)),
                forall|j: int| 0 <= j < lines@.len() ==> (#[trigger] lines@[j]).0 as int == spans[j].0 && lines@[j].1 as int == spans[j].1,
                forall|j: int| 0 <= j < lines@.len() ==> (#[trigger] lines@[j]).0 <= lines@[j].1 <= s@.len(),
                fixes_view(out@) == line_fixes(i as int, f),
            decreases lines.len() - i,
        {
            let (a, e) = lines[i];
            let e1 = strip_cr_end(s, a, e);
            let k = rskip_ws(s, a, e1);
            if k < e1 {
                push_fix(&mut out, k, e1, String::new());
            }
            proof {
                assert(line_fixes(i + 1, f) == line_fixes(i as int, f) + f(i as int));
            }
            i += 1;
        }
        out
    }
}

} // verus!
