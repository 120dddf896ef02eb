//! Plain list items: indentation, bullet or number, optional checkbox, text.
use vstd::prelude::*;
use crate::text::{char_is_digit, copy_range, is_digit, lead_count, parse_digits, all_digits, dec_value, skip_char};

verus! {

/// The marker of a list item.
#[derive(Debug, Clone, Copy, PartialEq, Eq, Structural)]
pub enum ListMarker {
    /// `-`.
    Dash,
    /// `+`.
    Plus,
    /// `*`, which must be indented (at the margin it starts a heading).
    Star,
    /// `N.`.
    OrderedDot(usize),
    /// `N)`.
    OrderedParen(usize),
}

/// A list item line.
#[derive(Debug, Clone, PartialEq)]
pub struct ListItem {
    /// The number of spaces before the marker.
    pub indent: usize,
    pub marker: ListMarker,
    /// The mark inside a checkbox `[ ]`, `[X]`, `[x]` or `[-]`.
    pub checkbox: Option<char>,
    /// The text after the marker and checkbox.
    pub content: String,
}

pub struct ItemView {
    pub indent: nat,
    pub marker: ListMarker,
    pub checkbox: Option<char>,
    pub content: Seq<char>,
}

pub open spec fn item_view(i: ListItem) -> ItemView {
    ItemView { indent: i.indent as nat, marker: i.marker, checkbox: i.checkbox, content: i.content@ }
}

/// The number of leading digits of `r`.
pub open spec fn digit_run(r: Seq<char>) -> nat
    decreases r.len(),
{
    if r.len() > 0 && is_digit(r[0]) {
        1 + digit_run(r.drop_first())
    } else {
        0
    }
}

/// The marker at the start of `r` (after `ind` spaces) and its length.
pub open spec fn marker_at(r: Seq<char>, ind: nat) -> Option<(ListMarker, int)> {
    if r.len() == 0 {
        None
    } else if r[0] == '-' {
        Some((ListMarker::Dash, 1))
    } else if r[0] == '+' {
        Some((ListMarker::Plus, 1))
    } else if r[0] == '*' {
        if ind > 0 {
            Some((ListMarker::Star, 1))
        } else {
            None
        }
    } else {
        let d = digit_run(r) as int;
        if 0 < d < r.len() && (r[d] == '.' || r[d] == ')') && dec_value(r.take(d)) <= usize::MAX {
            let v = dec_value(r.take(d)) as usize;
            Some((if r[d] == '.' { ListMarker::OrderedDot(v) } else { ListMarker::OrderedParen(v) }, d + 1))
        } else {
            None
        }
    }
}

/// The list item that `line` holds, if any: spaces, a marker followed by a
/// space or the end of the line, then an optional checkbox and the text.
pub open spec fn list_item_spec(line: Seq<char>) -> Option<ItemView> {
    let ind = lead_count(line, ' ');
    let r = line.skip(ind as int);
    match marker_at(r, ind) {
        None => None,
        Some((mk, mlen)) => {
            let after = r.skip(mlen);
            if after.len() > 0 && after[0] != ' ' {
                None
            } else {
                let b = after.skip(lead_count(after, ' ') as int);
                if b.len() >= 3 && b[0] == '[' && b[2] == ']' && (b[1] == ' ' || b[1] == 'x' || b[1] == 'X' || b[1] == '-')
                    && (b.len() == 3 || b[3] == ' ') {
                    let c = b.skip(3);
                    Some(ItemView { indent: ind, marker: mk, checkbox: Some(b[1]), content: c.skip(lead_count(c, ' ') as int) })
                } else {
                    Some(ItemView { indent: ind, marker: mk, checkbox: None, content: b })
                }
            }
        },
    }
}

proof fn lemma_digit_run(r: Seq<char>)
    ensures
        digit_run(r) <= r.len(),
        all_digits(r.take(digit_run(r) as int)),
        digit_run(r) < r.len() ==> !is_digit(r[digit_run(r) as int]),
    decreases r.len(),
{
    if r.len() > 0 && is_digit(r[0]) {
        lemma_digit_run(r.drop_first());
        let k = digit_run(r.drop_first()) as int;
        assert forall|i: int| 0 <= i < k + 1 implies is_digit(#[trigger] r.take(k + 1)[i]) by {
            if i > 0 {
                assert(r.take(k + 1)[i] == r.drop_first().take(k)[i - 1]);
            }
        }
        if k + 1 < r.len() {
            assert(r[k + 1] == r.drop_first()[k]);
        }
    }
}

fn marker_of(s: &[char], a: usize, hi: usize, ind: usize) -> (r: Option<(ListMarker, usize)>)
    requires
        a < hi <= s@.len(),
    ensures
        match r {
            Some((mk, n)) => marker_at(s@.subrange(a as int, hi as int), ind as nat) == Some((mk, n as int)) && 1 <= n <= hi - a,
            None => marker_at(s@.subrange(a as int, hi as int), ind as nat) is None,
        },
{
    let ghost r = s@.subrange(a as int, hi as int);
    assert(r[0] == s@[a as int]);
    let c = s[a];
    if c == '-' {
        Some((ListMarker::Dash, 1))
    } else if c == '+' {
        Some((ListMarker::Plus, 1))
    } else if c == '*' {
        if ind > 0 {
            Some((ListMarker::Star, 1))
        } else {
            None
        }
    } else {
        let mut d = a;
        assert(r.skip(0) =~= r);
        while d < hi && char_is_digit(s[d])
            invariant
                a <= d <= hi <= s@.len(),
                r == s@.subrange(a as int, hi as int),
                digit_run(r) == (d - a) + digit_run(r.skip(d - a)),
            decreases hi - d,
        {
            assert(r.skip(d - a)[0] == s@[d as int]);
            assert(r.skip(d - a).drop_first() =~= r.skip(d - a + 1));
            d += 1;
        }
        proof {
            if d < hi {
                assert(r.skip(d - a)[0] == s@[d as int]);
            }
        }
        let k = d - a;
        if !(k > 0 && d < hi && (s[d] == '.' || s[d] == ')')) {
            proof {
                if d < hi {
                    assert(r[k as int] == s@[d as int]);
                }
            }
            return None;
        }
        assert(r[k as int] == s@[d as int]);
        assert(r.take(k as int) =~= s@.subrange(a as int, d as int));
        proof {
            lemma_digit_run(r);
        }
        match parse_digits(s, a, d, usize::MAX as u64) {
            Some(v) => {
                if s[d] == '.' {
                    Some((ListMarker::OrderedDot(v as usize), k + 1))
                } else {
                    Some((ListMarker::OrderedParen(v as usize), k + 1))
                }
            },
            None => None,
        }
    }
}

/// The list item of `s[lo..hi]`, if it is one.
pub fn list_item_at(s: &[char], lo: usize, hi: usize) -> (r: Option<ListItem>)
    requires
        lo <= hi <= s@.len(),
    ensures
        match r {
            Some(it) => list_item_spec(s@.subrange(lo as int, hi as int)) == Some(item_view(it)),
            None => list_item_spec(s@.subrange(lo as int, hi as int)) is None,
        },
{
    let ghost line = s@.subrange(lo as int, hi as int);
    let a = skip_char(s, lo, hi, ' ');
    let ind = a - lo;
    let ghost r = line.skip(ind as int);
    assert(r =~= s@.subrange(a as int, hi as int));
    if a >= hi {
        return None;
    }
    let (mk, mlen) = match marker_of(s, a, hi, ind) {
        Some(x) => x,
        None => {
            return None;
        },
    };
    let m = a + mlen;
    let ghost after = r.skip(mlen as int);
    assert(after =~= s@.subrange(m as int, hi as int));
    if m < hi && s[m] != ' ' {
        assert(after[0] == s@[m as int]);
        return None;
    }
    let b0 = skip_char(s, m, hi, ' ');
    let ghost b = after.skip(lead_count(after, ' ') as int);
    assert(b =~= s@.subrange(b0 as int, hi as int));
    if hi - b0 >= 3 && s[b0] == '[' && s[b0 + 2] == ']' && (s[b0 + 1] == ' ' || s[b0 + 1] == 'x' || s[b0 + 1] == 'X'
        || s[b0 + 1] == '-') && (hi - b0 == 3 || s[b0 + 3] == ' ') {
        assert(b[0] == s@[b0 as int] && b[1] == s@[b0 + 1] && b[2] == s@[b0 + 2]);
        proof {
            if hi - b0 > 3 {
                assert(b[3] == s@[b0 + 3]);
            }
        }
        let c0 = skip_char(s, b0 + 3, hi, ' ');
        assert(b.skip(3) =~= s@.subrange(b0 + 3, hi as int));
        assert(b.skip(3).skip(lead_count(b.skip(3), ' ') as int) =~= s@.subrange(c0 as int, hi as int));
        let content = copy_range(s, c0, hi);
        Some(ListItem { indent: ind, marker: mk, checkbox: Some(s[b0 + 1]), content: crate::text::string_from(content.as_slice()) })
    } else {
        proof {
            if hi - b0 >= 3 {
                assert(b[0] == s@[b0 as int] && b[1] == s@[b0 + 1] && b[2] == s@[b0 + 2]);
                if hi - b0 > 3 {
                    assert(b[3] == s@[b0 + 3]);
                }
            }
        }
        let content = copy_range(s, b0, hi);
        Some(ListItem { indent: ind, marker: mk, checkbox: None, content: crate::text::string_from(content.as_slice()) })
    }
}

/// Parses a plain list item line.
pub fn parse_list_item(line: &str) -> (r: Option<ListItem>)
    ensures
        match r {
            Some(it) => list_item_spec(line@) == Some(item_view(it)),
            None => list_item_spec(line@) is None,
        },
{
    let c = crate::text::str_chars(line);
    assert(c@.subrange(0, c@.len() as int) =~= c@);
    list_item_at(c.as_slice(), 0, c.len())
}

} // verus!
