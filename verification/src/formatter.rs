//! Applying fixes to a text.
use vstd::prelude::*;
use crate::diagnostic::{Fix, Span};
use crate::text::{copy_range, push_all, str_chars, string_from};

verus! {

/// The fixes `fs` can be applied in order to a text of length `len` once the
/// text before `cursor` has been consumed: each fix starts at or after the end
/// of the previous one and lies within the text.
pub open spec fn fixes_fit(len: int, fs: Seq<Fix>, cursor: int) -> bool
    decreases fs.len(),
{
    if fs.len() == 0 {
        cursor <= len
    } else {
        &&& cursor <= fs[0].span.start <= len
        &&& fs[0].span.end <= len
        &&& fixes_fit(len, fs.drop_first(), fs[0].span.end as int)
    }
}

/// The text `t` from `cursor` on, with each fix's span replaced by its replacement.
pub open spec fn spliced(t: Seq<char>, fs: Seq<Fix>, cursor: int) -> Seq<char>
    decreases fs.len(),
{
    if fs.len() == 0 {
        t.subrange(cursor, t.len() as int)
    } else {
        t.subrange(cursor, fs[0].span.start as int) + fs[0].replacement@ + spliced(
            t,
            fs.drop_first(),
            fs[0].span.end as int,
        )
    }
}

/// Applies a sorted, non-overlapping list of fixes to `content`.
///
/// Copies the text between fixes unchanged and puts each fix's replacement in
/// place of its span.
pub fn apply_fixes(content: &str, fixes: &[Fix]) -> (r: String)
    requires
        fixes_fit(content@.len() as int, fixes@, 0),
    ensures
        r@ == spliced(content@, fixes@, 0),
{
    let t = str_chars(content);
    let v = apply_fixes_chars(t.as_slice(), fixes);
    string_from(v.as_slice())
}

/// `apply_fixes` on a character slice.
pub fn apply_fixes_chars(t: &[char], fixes: &[Fix]) -> (r: Vec<char>)
    requires
        fixes_fit(t@.len() as int, fixes@, 0),
    ensures
        r@ == spliced(t@, fixes@, 0),
{
    let mut out: Vec<char> = Vec::new();
    let mut cursor: usize = 0;
    let mut i: usize = 0;
    assert(fixes@.skip(0) =~= fixes@);
    while i < fixes.len()
        invariant
            i <= fixes@.len(),
            cursor <= t@.len(),
            fixes_fit(t@.len() as int, fixes@.skip(i as int), cursor as int),
            out@ + spliced(t@, fixes@.skip(i as int), cursor as int) == spliced(t@, fixes@, 0),
        decreases fixes.len() - i,
    {
        let ghost rest = fixes@.skip(i as int);
        assert(rest[0] == fixes@[i as int]);
        assert(rest.drop_first() =~= fixes@.skip(i + 1));
        let f = &fixes[i];
        let piece = copy_range(t, cursor, f.span.start);
        push_all(&mut out, piece.as_slice());
        let rep = str_chars(f.replacement.as_str());
        push_all(&mut out, rep.as_slice());
        cursor = f.span.end;
        i += 1;
        assert(out@ + spliced(t@, fixes@.skip(i as int), cursor as int) =~= spliced(t@, fixes@, 0));
    }
    let tail = copy_range(t, cursor, t.len());
    push_all(&mut out, tail.as_slice());
    assert(fixes@.skip(i as int).len() == 0);
    out
}

} // verus!
