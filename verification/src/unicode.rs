//! Unicode-aware operations whose results come from Unicode tables.
//!
//! Each result is given a name: Verus learns nothing of it beyond what the
//! wrapper states, and the contracts of the callers speak of that name.
use vstd::prelude::*;

verus! {

/// What `str::to_uppercase` gives for the text `t`.
pub uninterp spec fn upper_text(t: Seq<char>) -> Seq<char>;

/// What `str::to_lowercase` gives for the text `t`.
pub uninterp spec fn lower_text(t: Seq<char>) -> Seq<char>;

/// What `char::is_alphanumeric` gives for `c`.
pub uninterp spec fn is_alnum(c: char) -> bool;

/// What `UnicodeWidthStr::width` of the `unicode-width` crate gives for the text `t`.
pub uninterp spec fn display_width(t: Seq<char>) -> nat;

/// Calls `str::to_uppercase` on the text `t`; the result is `upper_text(t)`.
#[verifier::external_body]
pub fn to_upper(t: &[char]) -> (r: Vec<char>)
    ensures
        r@ == upper_text(t@),
{
    let s: String = t.iter().collect();
    s.to_uppercase().chars().collect()
}

/// Calls `str::to_lowercase` on the text `t`; the result is `lower_text(t)`.
#[verifier::external_body]
pub fn to_lower(t: &[char]) -> (r: Vec<char>)
    ensures
        r@ == lower_text(t@),
{
    let s: String = t.iter().collect();
    s.to_lowercase().chars().collect()
}

/// Calls `char::is_alphanumeric`; the result is `is_alnum(c)`.
#[verifier::external_body]
pub fn char_is_alnum(c: char) -> (b: bool)
    ensures
        b == is_alnum(c),
{
    c.is_alphanumeric()
}

/// Calls `UnicodeWidthStr::width` of the `unicode-width` crate on the text `t`;
/// the result is `display_width(t)`, and the width of the empty text is 0 (the
/// crate sums the widths of the characters).
#[verifier::external_body]
pub fn text_width(t: &[char]) -> (w: usize)
    ensures
        w == display_width(t@),
        t@.len() == 0 ==> w == 0,
{
    let s: String = t.iter().collect();
    unicode_width::UnicodeWidthStr::width(s.as_str())
}

} // verus!
