//! F008: list markers and checkboxes.
use vstd::prelude::*;
use crate::diagnostic::Fix;
use crate::lines::{fixes_view, line_fixes, line_ranges, line_spans, push_fix};
use crate::rules::format::regions::{in_regions, is_protected, protected_regions_chars, protected_spec};
use crate::rules::list::{item_view, list_item_at, list_item_spec, ItemView, ListMarker};
use crate::rules::{FormatContext, FormatRule};
use crate::text::{push_str, strip_cr, strip_cr_end, string_from};

verus! {

/// Writes unordered list markers as `-` and lowercase checkboxes `[x]` as
/// `[X]`; ordered items and protected regions are left alone.
pub struct ListFormat;

pub open spec fn checkbox_text(c: Option<char>) -> Seq<char> {
    match c {
        Some(x) => if x == 'x' || x == 'X' {
            " [X]"@
        } else if x == ' ' {
            " [ ]"@
        } else if x == '-' {
            " [-]"@
        } else {
            Seq::empty()
        },
        None => Seq::empty(),
    }
}

/// The line of a list item with a `-` marker.
pub open spec fn dash_line(it: ItemView) -> Seq<char> {
    Seq::new(it.indent, |i: int| ' ') + "-"@ + checkbox_text(it.checkbox) + if it.content.len() == 0 {
        Seq::<char>::empty()
    } else {
        " "@ + it.content
    }
}

/// The fix of line `i`: the item rewritten, when its marker is `+` or `*` or
/// its checkbox `[x]`, and the rewrite differs.
pub open spec fn list_line_fix(t: Seq<char>, spans: Seq<(int, int)>, i: int) -> Seq<(int, int, Seq<char>)> {
    let raw = strip_cr(t.subrange(spans[i].0, spans[i].1));
    if in_regions(i, protected_spec(t)) {
        Seq::empty()
    } else {
        match list_item_spec(raw) {
            Some(it) => {
                let unordered = it.marker is Dash || it.marker is Plus || it.marker is Star;
                let needs = it.marker is Plus || it.marker is Star || it.checkbox == Some('x');
                let nl = dash_line(it);
                if unordered && needs && nl != raw {
                    seq![(spans[i].0, spans[i].0 + raw.len(), nl)]
                } else {
                    Seq::empty()
                }
            },
            None => Seq::empty(),
        }
    }
}

fn dash_line_of(indent: usize, checkbox: Option<char>, content: &str) -> (r: Vec<char>)
    ensures
        r@ == dash_line(ItemView { indent: indent as nat, marker: ListMarker::Dash, checkbox, content: content@ }),
{
    let mut v: Vec<char> = Vec::new();
    let mut i: usize = 0;
    while i < indent
        invariant
            i <= indent,
            v@ == Seq::new(i as nat, |k: int| ' '),
        decreases indent - i,
    {
        v.push(' ');
        i += 1;
        assert(v@ =~= Seq::new(i as nat, |k: int| ' '));
    }
    push_str(&mut v, "-");
    match checkbox {
        Some(x) => {
            if x == 'x' || x == 'X' {
                push_str(&mut v, " [X]");
            } else if x == ' ' {
                push_str(&mut v, " [ ]");
            } else if x == '-' {
                push_str(&mut v, " [-]");
            }
        },
        None => {},
    }
    let cl = content.unicode_len();
    if cl > 0 {
        push_str(&mut v, " ");
        push_str(&mut v, content);
    }
    let ghost it = ItemView { indent: indent as nat, marker: ListMarker::Dash, checkbox, content: content@ };
    assert(v@ =~= dash_line(it));
    v
}

impl FormatRule for ListFormat {
    fn id(&self) -> (r: &'static str)
        ensures
            r@ == "F008"@,
    {
        "F008"
    }

    fn name(&self) -> (r: &'static str)
        ensures
            r@ == "list-format"@,
    {
        "list-format"
    }

    fn description(&self) -> (r: &'static str)
        ensures
            r@ == "Normalize list markers to - and checkbox case to [X]"@,
    {
        "Normalize list markers to - and checkbox case to [X]"
    }

    fn format(&self, ctx: &FormatContext) -> (r: Vec<Fix>)
        ensures
            fixes_view(r@) == line_fixes(
                line_spans(ctx.source.text()).len() as int,
                |i: int| list_line_fix(ctx.source.text(), line_spans(ctx.source.text()), i),
            ),
    {
        let s = ctx.source.chars();
        let lines = line_ranges(s);
        let regions = protected_regions_chars(s);
        let ghost t = s@;
        let ghost spans = line_spans(t);
        let ghost f = |i: int| list_line_fix(t, spans, i);
        let mut out: Vec<Fix> = Vec::new();
        let mut i: usize = 0;
        while i < lines.len()
            invariant
                i <= lines@.len() == spans.len(),
                t == s@,
                t == ctx.source.text(),
                spans == line_spans(t),
                regions@ == protected_spec(t),
                f == (|i: int| list_line_fix(t, spans, i)),
                forall|j: int| 0 <= j < lines@.len() ==> (#[trigger] lines@[j]).0 as int == spans[j].0 && lines@[j].1 as int == spans[j].1,
                forall|j: int| 0 <= j < lines@.len() ==> (#[trigger] lines@[j]).0 <= lines@[j].1 <= s@.len(),
                fixes_view(out@) == line_fixes(i as int, f),
            decreases lines.len() - i,
        {
            let (a, e) = lines[i];
            let e1 = strip_cr_end(s, a, e);
            let ghost raw = s@.subrange(a as int, e1 as int);
            assert(raw == strip_cr(t.subrange(a as int, e as int)));
            if !is_protected(i, regions.as_slice()) {
                match list_item_at(s, a, e1) {
                    Some(item) => {
                        let unordered = match item.marker {
                            ListMarker::Dash => true,
                            ListMarker::Plus => true,
                            ListMarker::Star => true,
                            _ => false,
                        };
                        let needs = match item.marker {
                            ListMarker::Plus => true,
                            ListMarker::Star => true,
                            _ => false,
                        } || item.checkbox == Some('x');
                        if unordered && needs {
                            let nl = dash_line_of(item.indent, item.checkbox, item.content.as_str());
                            assert(nl@ == dash_line(item_view(item)));
                            if !crate::text::seq_eq(nl.as_slice(), &s[a..e1]) {
                                push_fix(&mut out, a, e1, string_from(nl.as_slice()));
                            }
                        }
                    },
                    None => {},
                }
            }
            proof {
                assert(line_fixes(i + 1, f) == line_fixes(i as int, f) + f(i as int));
            }
            i += 1;
        }
        out
    }
}

} // verus!
