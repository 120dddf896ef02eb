//! Regions that formatting must leave alone: source, example, export, quote,
//! verse, center and comment blocks.
use vstd::prelude::*;
use crate::lines::{line_ranges, line_spans};
use crate::text::{skip_ws, starts_with, starts_with_str, str_chars, trim_start};

verus! {

/// Whether the (left-trimmed) line opens a protected block.
pub open spec fn opens_block(t: Seq<char>) -> bool {
    ||| starts_with(t, "#+BEGIN_SRC"@)
    ||| starts_with(t, "#+begin_src"@)
    ||| starts_with(t, "#+BEGIN_EXAMPLE"@)
    ||| starts_with(t, "#+begin_example"@)
    ||| starts_with(t, "#+BEGIN_EXPORT"@)
    ||| starts_with(t, "#+begin_export"@)
    ||| starts_with(t, "#+BEGIN_QUOTE"@)
    ||| starts_with(t, "#+begin_quote"@)
    ||| starts_with(t, "#+BEGIN_VERSE"@)
    ||| starts_with(t, "#+begin_verse"@)
    ||| starts_with(t, "#+BEGIN_CENTER"@)
    ||| starts_with(t, "#+begin_center"@)
    ||| starts_with(t, "#+BEGIN_COMMENT"@)
    ||| starts_with(t, "#+begin_comment"@)
}

/// Whether the (left-trimmed) line closes a block.
pub open spec fn closes_block(t: Seq<char>) -> bool {
    starts_with(t, "#+END_"@) || starts_with(t, "#+end_"@)
}

/// Scanning the first `n` lines: the line of the open block, if any, and the
/// closed blocks found so far as (first line, last line).
pub open spec fn regions_run(t: Seq<char>, spans: Seq<(int, int)>, n: int) -> (Option<int>, Seq<(usize, usize)>)
    decreases n,
{
    if n <= 0 {
        (None, Seq::empty())
    } else {
        let (open, out) = regions_run(t, spans, n - 1);
        let line = trim_start(t.subrange(spans[n - 1].0, spans[n - 1].1));
        match open {
            Some(start) => if closes_block(line) {
                (None, out.push((start as usize, (n - 1) as usize)))
            } else {
                (open, out)
            },
            None => if opens_block(line) {
                (Some(n - 1), out)
            } else {
                (None, out)
            },
        }
    }
}

/// The protected blocks of `t`, as 0-based inclusive (first line, last line) pairs.
pub open spec fn protected_spec(t: Seq<char>) -> Seq<(usize, usize)> {
    regions_run(t, line_spans(t), line_spans(t).len() as int).1
}

/// Whether the trimmed line `s[lo..hi]` opens a protected block.
fn opens_block_at(s: &[char], lo: usize, hi: usize) -> (b: bool)
    requires
        lo <= hi <= s@.len(),
    ensures
        b == opens_block(s@.subrange(lo as int, hi as int)),
{
    starts_with_str(s, lo, hi, "#+BEGIN_SRC") || starts_with_str(s, lo, hi, "#+begin_src")
        || starts_with_str(s, lo, hi, "#+BEGIN_EXAMPLE") || starts_with_str(s, lo, hi, "#+begin_example")
        || starts_with_str(s, lo, hi, "#+BEGIN_EXPORT") || starts_with_str(s, lo, hi, "#+begin_export")
        || starts_with_str(s, lo, hi, "#+BEGIN_QUOTE") || starts_with_str(s, lo, hi, "#+begin_quote")
        || starts_with_str(s, lo, hi, "#+BEGIN_VERSE") || starts_with_str(s, lo, hi, "#+begin_verse")
        || starts_with_str(s, lo, hi, "#+BEGIN_CENTER") || starts_with_str(s, lo, hi, "#+begin_center")
        || starts_with_str(s, lo, hi, "#+BEGIN_COMMENT") || starts_with_str(s, lo, hi, "#+begin_comment")
}

/// The protected blocks of the text `s`.
pub fn protected_regions_chars(s: &[char]) -> (r: Vec<(usize, usize)>)
    ensures
        r@ == protected_spec(s@),
{
    let lines = line_ranges(s);
    let ghost spans = line_spans(s@);
    let mut out: Vec<(usize, usize)> = Vec::new();
    let mut open: Option<usize> = None;
    let mut i: usize = 0;
    while i < lines.len()
        invariant
            i <= lines@.len() == spans.len(),
            spans == line_spans(s@),
            forall|j: int| 0 <= j < lines@.len() ==> (#[trigger] lines@[j]).0 as int == spans[j].0 && lines@[j].1 as int == spans[j].1,
            forall|j: int| 0 <= j < lines@.len() ==> (#[trigger] lines@[j]).0 <= lines@[j].1 <= s@.len(),
            regions_run(s@, spans, i as int) == (match open { Some(k) => Some(k as int), None => None }, out@),
            open matches Some(k) ==> k < i,
        decreases lines.len() - i,
    {
        let (a, e) = lines[i];
        let b = skip_ws(s, a, e);
        match open {
            Some(start) => {
                if starts_with_str(s, b, e, "#+END_") || starts_with_str(s, b, e, "#+end_") {
                    out.push((start, i));
                    open = None;
                }
            },
            None => {
                if opens_block_at(s, b, e) {
                    open = Some(i);
                }
            },
        }
        i += 1;
    }
    out
}

/// The protected blocks of `content`, as 0-based inclusive (first line, last line) pairs.
pub fn protected_regions(content: &str) -> (r: Vec<(usize, usize)>)
    ensures
        r@ == protected_spec(content@),
{
    let s = str_chars(content);
    protected_regions_chars(s.as_slice())
}

/// Whether line `line` lies in one of the regions.
pub open spec fn in_regions(line: int, regions: Seq<(usize, usize)>) -> bool {
    exists|k: int| 0 <= k < regions.len() && (#[trigger] regions[k]).0 <= line <= regions[k].1
}

/// Whether the 0-based line `line` is inside one of `regions`.
pub fn is_protected(line: usize, regions: &[(usize, usize)]) -> (b: bool)
    ensures
        b == in_regions(line as int, regions@),
{
    let mut k: usize = 0;
    while k < regions.len()
        invariant
            k <= regions@.len(),
            forall|j: int| 0 <= j < k ==> !((#[trigger] regions@[j]).0 <= line <= regions@[j].1),
        decreases regions.len() - k,
    {
        if regions[k].0 <= line && line <= regions[k].1 {
            return true;
        }
        k += 1;
    }
    false
}

} // verus!
