//! F006: one space after the colon of `#+KEYWORD:`.
use vstd::prelude::*;
use crate::diagnostic::Fix;
use crate::lines::{fixes_view, line_fixes, line_ranges, line_spans, push_fix};
use crate::rules::format::regions::{in_regions, is_protected, protected_regions_chars, protected_spec};
use crate::rules::{FormatContext, FormatRule};
use crate::text::{find_char, find_char_at, lead_ws, skip_ws, starts_with, starts_with_str, strip_cr, strip_cr_end, trim_start};
use crate::unicode::{to_upper, upper_text};

verus! {

/// Puts exactly one space between the colon of a `#+KEYWORD:` line and its
/// value, outside protected regions; block delimiters, `#+CALL` and
/// `#+RESULTS` lines and keywords with nothing after the colon are left alone.
pub struct KeywordSpacing;

/// The fix of line `i`.
pub open spec fn keyword_line_fix(t: Seq<char>, spans: Seq<(int, int)>, i: int) -> Seq<(int, int, Seq<char>)> {
    let raw = strip_cr(t.subrange(spans[i].0, spans[i].1));
    let tr = trim_start(raw);
    let leading = lead_ws(raw) as int;
    if in_regions(i, protected_spec(t)) || !starts_with(tr, "#+"@) {
        Seq::empty()
    } else {
        let rest = tr.skip(2);
        let ru = upper_text(rest);
        if starts_with(ru, "BEGIN"@) || starts_with(ru, "END"@) || starts_with(ru, "CALL"@) || starts_with(ru, "RESULTS"@)
            || rest.len() == 0 {
            Seq::empty()
        } else {
            match find_char(rest, ':') {
                Some(c) => {
                    let after = rest.skip(c + 1);
                    let spaces = lead_ws(after) as int;
                    if after.len() > 0 && spaces != 1 {
                        let start = spans[i].0 + leading + 2 + c + 1;
                        seq![(start, start + spaces, " "@)]
                    } else {
                        Seq::empty()
                    }
                },
                None => Seq::empty(),
            }
        }
    }
}

impl FormatRule for KeywordSpacing {
    fn id(&self) -> (r: &'static str)
        ensures
            r@ == "F006"@,
    {
        "F006"
    }

    fn name(&self) -> (r: &'static str)
        ensures
            r@ == "keyword-spacing"@,
    {
        "keyword-spacing"
    }

    fn description(&self) -> (r: &'static str)
        ensures
            r@ == "Normalize spacing after #+KEYWORD:"@,
    {
        "Normalize spacing after #+KEYWORD:"
    }

    fn format(&self, ctx: &FormatContext) -> (r: Vec<Fix>)
        ensures
            fixes_view(r@) == line_fixes(
                line_spans(ctx.source.text()).len() as int,
                |i: int| keyword_line_fix(ctx.source.text(), line_spans(ctx.source.text()), i),
            ),
    {
        let s = ctx.source.chars();
        let lines = line_ranges(s);
        let regions = protected_regions_chars(s);
        let ghost t = s@;
        let ghost spans = line_spans(t);
        let ghost f = |i: int| keyword_line_fix(t, spans, i);
        let mut out: Vec<Fix> = Vec::new();
        let mut i: usize = 0;
        while i < lines.len()
            invariant
                i <= lines@.len() == spans.len(),
                t == s@,
                t == ctx.source.text(),
                spans == line_spans(t),
                regions@ == protected_spec(t),
                f == (|i: int| keyword_line_fix(t, spans, i)),
                forall|j: int| 0 <= j < lines@.len() ==> (#[trigger] lines@[j]).0 as int == spans[j].0 && lines@[j].1 as int == spans[j].1,
                forall|j: int| 0 <= j < lines@.len() ==> (#[trigger] lines@[j]).0 <= lines@[j].1 <= s@.len(),
                fixes_view(out@) == line_fixes(i as int, f),
            decreases lines.len() - i,
        {
            let (a, e) = lines[i];
            let e1 = strip_cr_end(s, a, e);
            let k = skip_ws(s, a, e1);
            let ghost tr = s@.subrange(k as int, e1 as int);
            if !is_protected(i, regions.as_slice()) && starts_with_str(s, k, e1, "#+") {
                proof {
                    reveal_strlit("#+");
                }
                let r0 = k + 2;
                assert(s@.subrange(r0 as int, e1 as int) =~= tr.skip(2));
                let ru = to_upper(&s[r0..e1]);
                let us = ru.as_slice();
                assert(us@.subrange(0, us@.len() as int) =~= us@);
                let skip = starts_with_str(us, 0, us.len(), "BEGIN") || starts_with_str(us, 0, us.len(), "END")
                    || starts_with_str(us, 0, us.len(), "CALL") || starts_with_str(us, 0, us.len(), "RESULTS") || r0 == e1;
                if !skip {
                    match find_char_at(s, r0, e1, ':') {
                        Some(c) => {
                            let m = skip_ws(s, c + 1, e1);
                            assert(s@.subrange(c + 1, e1 as int) =~= tr.skip(2).skip(c - r0 + 1));
                            if c + 1 < e1 && m - (c + 1) != 1 {
                                push_fix(&mut out, c + 1, m, " ".to_owned());
                            }
                        },
                        None => {},
                    }
                }
            }
            proof {
                assert(line_fixes(i + 1, f) == line_fixes(i as int, f) + f(i as int));
            }
            i += 1;
        }
        out
    }
}

} // verus!
