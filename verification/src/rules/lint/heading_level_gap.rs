//! W001: heading levels that skip a level.
use vstd::prelude::*;
use crate::diagnostic::{Diagnostic, Severity};
use crate::lines::{diag_at, diags_view, finding_at, lemma_diags_push, line_ranges, line_spans, DiagView};
use crate::rules::{LintContext, LintRule};
use crate::text::{
    dec_digits, eq_ignore_case, eq_ignore_case_str, find_char, find_char_at, lead_count, push_dec, push_str,
    ranges_view, skip_char, skip_ws, starts_with, str_chars, string_from, strip_cr, strip_cr_end, trim, trim_range,
    trim_start, ws_token_ranges, ws_tokens,
};

verus! {

/// Reports a heading whose level is more than one step below the previous
/// heading's; under `#+STARTUP: odd` levels step by two and even levels are
/// reported.
pub struct HeadingLevelGap;

/// The level of a heading line, allowing indentation: its stars, followed by
/// a space or nothing.
pub open spec fn gap_level(line: Seq<char>) -> Option<nat> {
    let tr = trim_start(line);
    let n = lead_count(tr, '*');
    let after = tr.skip(n as int);
    if n > 0 && (after.len() == 0 || after[0] == ' ') {
        Some(n)
    } else {
        None
    }
}

/// The odd setting after the words of a `#+STARTUP:` value.
pub open spec fn startup_fold(words: Seq<Seq<char>>, odd: bool) -> bool
    decreases words.len(),
{
    if words.len() == 0 {
        odd
    } else {
        let w = words.last();
        let before = startup_fold(words.drop_last(), odd);
        if eq_ignore_case(w, "odd"@) {
            true
        } else if eq_ignore_case(w, "oddeven"@) {
            false
        } else {
            before
        }
    }
}

/// The odd setting after one line before the first heading.
pub open spec fn startup_line(raw: Seq<char>, odd: bool) -> bool {
    let tr = trim(raw);
    if starts_with(tr, "#+"@) {
        let rest = tr.skip(2);
        match find_char(rest, ':') {
            Some(c) => if eq_ignore_case(trim(rest.take(c)), "STARTUP"@) {
                startup_fold(ws_tokens(rest.skip(c + 1)), odd)
            } else {
                odd
            },
            None => odd,
        }
    } else {
        odd
    }
}

/// Whether a heading was met among the first `n` lines, and the odd setting.
pub open spec fn startup_run(t: Seq<char>, spans: Seq<(int, int)>, n: int) -> (bool, bool)
    decreases n,
{
    if n <= 0 {
        (false, false)
    } else {
        let (stop, odd) = startup_run(t, spans, n - 1);
        let raw = strip_cr(t.subrange(spans[n - 1].0, spans[n - 1].1));
        if stop || gap_level(raw) is Some {
            (true, odd)
        } else {
            (false, startup_line(raw, odd))
        }
    }
}

/// Whether the file sets `#+STARTUP: odd` before its first heading.
pub open spec fn startup_odd(t: Seq<char>) -> bool {
    let spans = line_spans(t);
    startup_run(t, spans, spans.len() as int).1
}

pub open spec fn even_message(level: nat) -> Seq<char> {
    "even heading level "@ + dec_digits(level) + " is not valid with #+STARTUP: odd"@
}

pub open spec fn jump_message(prev: nat, level: nat, missing: nat) -> Seq<char> {
    "heading level jumps from "@ + dec_digits(prev) + " to "@ + dec_digits(level) + " (missing level "@
        + dec_digits(missing) + ")"@
}

/// The previous heading level and the findings after the first `n` lines.
pub open spec fn gap_run(t: Seq<char>, file: Seq<char>, spans: Seq<(int, int)>, odd: bool, n: int) -> (Option<nat>, Seq<DiagView>)
    decreases n,
{
    if n <= 0 {
        (None, Seq::empty())
    } else {
        let (prev, out) = gap_run(t, file, spans, odd, n - 1);
        let a = spans[n - 1].0;
        let step: nat = if odd { 2 } else { 1 };
        match gap_level(strip_cr(t.subrange(a, spans[n - 1].1))) {
            Some(level) => {
                let f = |m: Seq<char>| finding_at(t, file, a, Severity::Warning, "W001"@, "heading-level-gap"@, m);
                if odd && level % 2 == 0 {
                    (Some(level), out.push(f(even_message(level))))
                } else {
                    match prev {
                        Some(p) => if level > p + step {
                            (Some(level), out.push(f(jump_message(p, level, p + step))))
                        } else {
                            (Some(level), out)
                        },
                        None => (Some(level), out),
                    }
                }
            },
            None => (prev, out),
        }
    }
}

fn gap_level_at(s: &[char], lo: usize, hi: usize) -> (r: Option<usize>)
    requires
        lo <= hi <= s@.len(),
    ensures
        r matches Some(n) ==> gap_level(s@.subrange(lo as int, hi as int)) == Some(n as nat) && n <= hi - lo,
        r is None ==> gap_level(s@.subrange(lo as int, hi as int)) is None,
{
    let k = skip_ws(s, lo, hi);
    let ghost tr = s@.subrange(k as int, hi as int);
    let m = skip_char(s, k, hi, '*');
    assert(s@.subrange(m as int, hi as int) =~= tr.skip(m - k));
    if m > k && (m == hi || s[m] == ' ') {
        proof {
            if m < hi {
                assert(tr.skip(m - k)[0] == s@[m as int]);
            }
        }
        Some(m - k)
    } else {
        proof {
            if m < hi {
                assert(tr.skip(m - k)[0] == s@[m as int]);
            }
        }
        None
    }
}

fn startup_line_at(s: &[char], lo: usize, hi: usize, odd: bool) -> (r: bool)
    requires
        lo <= hi <= s@.len(),
    ensures
        r == startup_line(s@.subrange(lo as int, hi as int), odd),
{
    let (t0, t1) = trim_range(s, lo, hi);
    let ghost tr = s@.subrange(t0 as int, t1 as int);
    if t1 - t0 >= 2 && s[t0] == '#' && s[t0 + 1] == '+' {
        proof {
            reveal_strlit("#+");
            assert("#+"@ =~= seq!['#', '+']);
            assert(tr.take(2) =~= seq!['#', '+']);
        }
        assert(s@.subrange(t0 + 2, t1 as int) =~= tr.skip(2));
        match find_char_at(s, t0 + 2, t1, ':') {
            Some(c) => {
                let (k0, k1) = trim_range(s, t0 + 2, c);
                assert(s@.subrange(t0 + 2, c as int) =~= tr.skip(2).take(c - t0 - 2));
                if eq_ignore_case_str(s, k0, k1, "STARTUP") {
                    let toks = ws_token_ranges(s, c + 1, t1);
                    assert(s@.subrange(c + 1, t1 as int) =~= tr.skip(2).skip(c - t0 - 2 + 1));
                    let ghost words = ranges_view(s@, toks@);
                    let mut o = odd;
                    let mut j: usize = 0;
                    while j < toks.len()
                        invariant
                            j <= toks@.len(),
                            words == ranges_view(s@, toks@),
                            forall|i: int| 0 <= i < toks@.len() ==> (#[trigger] toks@[i]).0 <= toks@[i].1 <= s@.len(),
                            o == startup_fold(words.take(j as int), odd),
                        decreases toks.len() - j,
                    {
                        let (w0, w1) = toks[j];
                        assert(words.take(j + 1).drop_last() =~= words.take(j as int));
                        assert(words.take(j + 1).last() == s@.subrange(w0 as int, w1 as int));
                        if eq_ignore_case_str(s, w0, w1, "odd") {
                            o = true;
                        } else if eq_ignore_case_str(s, w0, w1, "oddeven") {
                            o = false;
                        }
                        j += 1;
                    }
                    assert(words.take(toks@.len() as int) =~= words);
                    o
                } else {
                    odd
                }
            },
            None => odd,
        }
    } else {
        proof {
            reveal_strlit("#+");
            assert("#+"@ =~= seq!['#', '+']);
            if t1 - t0 >= 2 {
                assert(tr.take(2) =~= seq![s@[t0 as int], s@[t0 + 1]]);
            }
        }
        odd
    }
}

/// Whether `content` sets `#+STARTUP: odd` (and no later `oddeven`) before
/// its first heading.
pub fn has_startup_odd(content: &str) -> (b: bool)
    ensures
        b == startup_odd(content@),
{
    let c = str_chars(content);
    let s = c.as_slice();
    let lines = line_ranges(s);
    startup_odd_at(s, &lines)
}

/// Whether the text sets `#+STARTUP: odd` before its first heading.
fn startup_odd_at(s: &[char], lines: &Vec<(usize, usize)>) -> (r: bool)
    requires
        lines@.len() == line_spans(s@).len(),
        forall|j: int| 0 <= j < lines@.len() ==> (#[trigger] lines@[j]).0 as int == line_spans(s@)[j].0 && lines@[j].1 as int == line_spans(s@)[j].1,
        forall|j: int| 0 <= j < lines@.len() ==> (#[trigger] lines@[j]).0 <= lines@[j].1 <= s@.len(),
    ensures
        r == startup_odd(s@),
{
    let ghost spans = line_spans(s@);
    let mut odd = false;
    let mut stop = false;
    let mut i: usize = 0;
    while i < lines.len()
        invariant
            i <= lines@.len() == spans.len(),
            spans == line_spans(s@),
            forall|j: int| 0 <= j < lines@.len() ==> (#[trigger] lines@[j]).0 as int == spans[j].0 && lines@[j].1 as int == spans[j].1,
            forall|j: int| 0 <= j < lines@.len() ==> (#[trigger] lines@[j]).0 <= lines@[j].1 <= s@.len(),
            (stop, odd) == startup_run(s@, spans, i as int),
        decreases lines.len() - i,
    {
        if !stop {
            let (a, e) = lines[i];
            let e1 = strip_cr_end(s, a, e);
            if gap_level_at(s, a, e1).is_some() {
                stop = true;
            } else {
                odd = startup_line_at(s, a, e1, odd);
            }
        }
        i += 1;
    }
    odd
}

impl LintRule for HeadingLevelGap {
    fn id(&self) -> (r: &'static str)
        ensures
            r@ == "W001"@,
    {
        "W001"
    }

    fn name(&self) -> (r: &'static str)
        ensures
            r@ == "heading-level-gap"@,
    {
        "heading-level-gap"
    }

    fn description(&self) -> (r: &'static str)
        ensures
            r@ == "Detect heading level gaps (e.g., * to *** without **)"@,
    {
        "Detect heading level gaps (e.g., * to *** without **)"
    }

    fn check(&self, ctx: &LintContext) -> (r: Vec<Diagnostic>)
        ensures
            diags_view(r@) == gap_run(
                ctx.source.text(),
                ctx.source.path_view(),
                line_spans(ctx.source.text()),
                startup_odd(ctx.source.text()),
                line_spans(ctx.source.text()).len() as int,
            ).1,
    {
        let s = ctx.source.chars();
        let lines = line_ranges(s);
        let ghost t = s@;
        let ghost file = ctx.source.path_view();
        let ghost spans = line_spans(t);
        let odd = startup_odd_at(s, &lines);
        let step: usize = if odd { 2 } else { 1 };
        let mut prev: Option<usize> = None;
        let mut out: Vec<Diagnostic> = Vec::new();
        let mut i: usize = 0;
        while i < lines.len()
            invariant
                i <= lines@.len() == spans.len(),
                t == s@,
                t == ctx.source.text(),
                s@.len() < usize::MAX - 1,
                file == ctx.source.path_view(),
                spans == line_spans(t),
                odd == startup_odd(t),
                step == if odd { 2usize } else { 1usize },
                forall|j: int| 0 <= j < lines@.len() ==> (#[trigger] lines@[j]).0 as int == spans[j].0 && lines@[j].1 as int == spans[j].1,
                forall|j: int| 0 <= j < lines@.len() ==> (#[trigger] lines@[j]).0 <= lines@[j].1 <= s@.len(),
                prev matches Some(p) ==> p <= s@.len(),
                (match prev { Some(p) => Some(p as nat), None => None }, diags_view(out@)) == gap_run(t, file, spans, odd, i as int),
            decreases lines.len() - i,
        {
            let (a, e) = lines[i];
            let e1 = strip_cr_end(s, a, e);
            match gap_level_at(s, a, e1) {
                Some(level) => {
                    if odd && level % 2 == 0 {
                        let mut msg: Vec<char> = Vec::new();
                        push_str(&mut msg, "even heading level ");
                        push_dec(&mut msg, level);
                        push_str(&mut msg, " is not valid with #+STARTUP: odd");
                        let d = diag_at(ctx.source, a, Severity::Warning, "W001", "heading-level-gap", string_from(msg.as_slice()));
                        proof {
                            lemma_diags_push(out@, d);
                        }
                        out.push(d);
                    } else {
                        match prev {
                            Some(p) => {
                                if level > p + step {
                                    let mut msg: Vec<char> = Vec::new();
                                    push_str(&mut msg, "heading level jumps from ");
                                    push_dec(&mut msg, p);
                                    push_str(&mut msg, " to ");
                                    push_dec(&mut msg, level);
                                    push_str(&mut msg, " (missing level ");
                                    push_dec(&mut msg, p + step);
                                    push_str(&mut msg, ")");
                                    let d = diag_at(ctx.source, a, Severity::Warning, "W001", "heading-level-gap", string_from(msg.as_slice()));
                                    proof {
                                        lemma_diags_push(out@, d);
                                    }
                                    out.push(d);
                                }
                            },
                            None => {},
                        }
                    }
                    prev = Some(level);
                },
                None => {},
            }
            i += 1;
        }
        out
    }
}

} // verus!
