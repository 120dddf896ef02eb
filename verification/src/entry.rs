//! Adding new TODO entries to an org file.
use vstd::prelude::*;
use crate::document::OrgDocument;
use crate::lines::{line_ranges, line_spans};
use crate::source::SourceFile;
use crate::state::{join_colon, push_joined_colon};
use crate::text::{push_all, push_str, string_from};

verus! {

/// What a new entry holds.
pub struct NewEntryOpts {
    /// Heading title text.
    pub title: String,
    /// Heading level (number of stars).
    pub level: usize,
    /// TODO keyword, such as `TODO`.
    pub keyword: Option<String>,
    /// Priority letter, such as `A`.
    pub priority: Option<char>,
    /// Tags of the heading.
    pub tags: Vec<String>,
    /// `SCHEDULED` date, written `YYYY-MM-DD`.
    pub scheduled: Option<String>,
    /// `DEADLINE` date, written `YYYY-MM-DD`.
    pub deadline: Option<String>,
}

/// The text of a file after an entry was added.
pub struct AddEntryResult {
    /// The new content of the file.
    pub content: String,
}

/// The heading line of a new entry.
pub open spec fn new_heading(o: NewEntryOpts) -> Seq<char> {
    Seq::new(o.level as nat, |i: int| '*') + " "@ + (match o.keyword {
        Some(k) => k@ + " "@,
        None => Seq::empty(),
    }) + (match o.priority {
        Some(p) => "[#"@ + seq![p] + "] "@,
        None => Seq::empty(),
    }) + o.title@ + (if o.tags@.len() > 0 {
        " :"@ + join_colon(o.tags@.map_values(|x: String| x@)) + ":"@
    } else {
        Seq::empty()
    })
}

/// The planning line of a new entry, with the line break before it, or
/// nothing when it has neither date.
pub open spec fn new_planning(o: NewEntryOpts) -> Seq<char> {
    match (o.scheduled, o.deadline) {
        (None, None) => Seq::empty(),
        (Some(s), None) => "\n"@ + "SCHEDULED: <"@ + s@ + ">"@,
        (None, Some(d)) => "\n"@ + "DEADLINE: <"@ + d@ + ">"@,
        (Some(s), Some(d)) => "\n"@ + "SCHEDULED: <"@ + s@ + ">"@ + " "@ + "DEADLINE: <"@ + d@ + ">"@,
    }
}

/// The lines a new entry adds, without the final line break.
pub open spec fn new_block(o: NewEntryOpts) -> Seq<char> {
    new_heading(o) + new_planning(o)
}

/// Where an entry whose content ends before line `end_line` (1-based) takes
/// a new last child: the start of line `end_line - 1` (0-based), or the end
/// of the text when there is no such line.
pub open spec fn child_offset(t: Seq<char>, end_line: int) -> int {
    let n = line_spans(t).len() as int;
    let il = if end_line - 1 < n {
        end_line - 1
    } else {
        n
    };
    if il < n {
        line_spans(t)[il].0
    } else {
        t.len() as int
    }
}

/// Whether the first `off` characters of `t` end with a blank line.
pub open spec fn ends_blank(t: Seq<char>, off: int) -> bool {
    off >= 2 && t[off - 1] == '\n' && t[off - 2] == '\n'
}

/// `t` after a new entry `block` was appended at its end, behind an empty line.
pub open spec fn appended(t: Seq<char>, block: Seq<char>) -> Seq<char> {
    let c1 = if t.len() > 0 && t.last() == '\n' {
        t
    } else {
        t + "\n"@
    };
    let c2 = if ends_blank(c1, c1.len() as int) {
        c1
    } else {
        c1 + "\n"@
    };
    c2 + block + "\n"@
}

/// `t` after a new entry `block` was put at offset `off`, behind an empty
/// line unless one is there already.
pub open spec fn inserted(t: Seq<char>, off: int, block: Seq<char>) -> Seq<char> {
    t.take(off) + (if off > 0 && !ends_blank(t, off) {
        "\n"@
    } else {
        Seq::empty()
    }) + block + "\n"@ + t.skip(off)
}

/// What [`add_entry`] makes of the text `t`.
pub open spec fn with_entry(t: Seq<char>, doc: OrgDocument, parent_idx: Option<usize>, o: NewEntryOpts) -> Seq<char> {
    match parent_idx {
        Some(p) => inserted(t, child_offset(t, doc.entries@[p as int].content_end_line as int), new_block(o)),
        None => appended(t, new_block(o)),
    }
}

fn heading_text(m: &mut Vec<char>, opts: &NewEntryOpts)
    ensures
        final(m)@ == old(m)@ + new_heading(*opts),
{
    let ghost start = m@;
    let mut i: usize = 0;
    while i < opts.level
        invariant
            i <= opts.level,
            m@ == start + Seq::new(i as nat, |k: int| '*'),
        decreases opts.level - i,
    {
        m.push('*');
        i += 1;
        assert(m@ =~= start + Seq::new(i as nat, |k: int| '*'));
    }
    push_str(m, " ");
    match &opts.keyword {
        Some(kw) => {
            push_str(m, kw.as_str());
            push_str(m, " ");
        },
        None => {},
    }
    match opts.priority {
        Some(p) => {
            push_str(m, "[#");
            m.push(p);
            push_str(m, "] ");
        },
        None => {},
    }
    push_str(m, opts.title.as_str());
    if opts.tags.len() > 0 {
        push_str(m, " :");
        push_joined_colon(m, &opts.tags);
        push_str(m, ":");
    }
    assert(final(m)@ =~= old(m)@ + new_heading(*opts));
}

fn planning_text(m: &mut Vec<char>, opts: &NewEntryOpts)
    ensures
        final(m)@ == old(m)@ + new_planning(*opts),
{
    match &opts.scheduled {
        Some(s) => {
            push_str(m, "\n");
            push_str(m, "SCHEDULED: <");
            push_str(m, s.as_str());
            push_str(m, ">");
            match &opts.deadline {
                Some(d) => {
                    push_str(m, " ");
                    push_str(m, "DEADLINE: <");
                    push_str(m, d.as_str());
                    push_str(m, ">");
                },
                None => {},
            }
        },
        None => {
            match &opts.deadline {
                Some(d) => {
                    push_str(m, "\n");
                    push_str(m, "DEADLINE: <");
                    push_str(m, d.as_str());
                    push_str(m, ">");
                },
                None => {},
            }
        },
    }
    assert(final(m)@ =~= old(m)@ + new_planning(*opts));
}

/// Adds a new entry to the file. With `parent_idx`, the entry goes after the
/// parent's content, before the line where the next entry starts; without,
/// it is appended at the end of the file. Either way an empty line comes
/// before it.
pub fn add_entry(
    source: &SourceFile,
    doc: &OrgDocument,
    parent_idx: Option<usize>,
    opts: &NewEntryOpts,
) -> (r: AddEntryResult)
    requires
        parent_idx matches Some(p) ==> p < doc.entries@.len() && doc.entries@[p as int].content_end_line >= 1,
    ensures
        r.content@ == with_entry(source.text(), *doc, parent_idx, *opts),
{
    let s = source.chars();
    let ghost t = s@;
    proof {
        reveal_strlit("\n");
    }
    let mut block: Vec<char> = Vec::new();
    heading_text(&mut block, opts);
    planning_text(&mut block, opts);
    assert(block@ =~= new_block(*opts));
    let mut out: Vec<char> = Vec::new();
    match parent_idx {
        Some(pidx) => {
            let lines = line_ranges(s);
            let end_line = doc.entries[pidx].content_end_line - 1;
            let il = if end_line < lines.len() {
                end_line
            } else {
                lines.len()
            };
            let off = if il < lines.len() {
                lines[il].0
            } else {
                s.len()
            };
            assert(off == child_offset(t, doc.entries@[pidx as int].content_end_line as int));
            let mut i: usize = 0;
            while i < off
                invariant
                    off <= s@.len(),
                    i <= off,
                    out@ == s@.take(i as int),
                decreases off - i,
            {
                out.push(s[i]);
                i += 1;
                assert(out@ =~= s@.take(i as int));
            }
            let blank = off >= 2 && s[off - 1] == '\n' && s[off - 2] == '\n';
            if off > 0 && !blank {
                out.push('\n');
            }
            push_all(&mut out, block.as_slice());
            out.push('\n');
            let mut j: usize = off;
            let ghost mid = out@;
            while j < s.len()
                invariant
                    off <= j <= s@.len(),
                    out@ == mid + s@.subrange(off as int, j as int),
                decreases s.len() - j,
            {
                out.push(s[j]);
                j += 1;
                assert(out@ =~= mid + s@.subrange(off as int, j as int));
            }
            assert(s@.subrange(off as int, s@.len() as int) =~= s@.skip(off as int));
            assert(out@ =~= inserted(t, off as int, block@));
        },
        None => {
            push_all(&mut out, s);
            let n = out.len();
            if !(n > 0 && out[n - 1] == '\n') {
                out.push('\n');
            }
            let ghost c1 = out@;
            let n = out.len();
            if !(n >= 2 && out[n - 1] == '\n' && out[n - 2] == '\n') {
                out.push('\n');
            }
            push_all(&mut out, block.as_slice());
            out.push('\n');
            assert(out@ =~= appended(t, block@));
        },
    }
    AddEntryResult { content: string_from(out.as_slice()) }
}

} // verus!
