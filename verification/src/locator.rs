//! Locators: strings that name one heading of one org file.
//!
//! | Pattern | Example |
//! |---|---|
//! | `id:<uuid>` | `id:550e8400-e29b-...` |
//! | `<file>::#<custom-id>` | `notes.org::#project-x` |
//! | `<file>::*/<path>` | `todo.org::*/Work/Meeting` |
//! | `<file>::<line>` | `inbox.org::42` |
use vstd::prelude::*;
use crate::document::{first_with, titles_path, OrgDocument};
use crate::rules::heading::strings_view;
use crate::text::{
    copy_range, dec_digits, find, find_str, parse_unsigned, parse_unsigned_at, push_all, push_dec, push_str,
    ranges_view, split_char, split_ranges, starts_with, starts_with_str, str_chars, string_from, string_of,
    trim, trim_range, is_ws, is_digit, all_digits, dec_value, digit_char, lead_ws, trail_ws, trim_start,
    lemma_lead_ws_at, lemma_trail_ws_at, lemma_lead_ws_bound, lemma_trail_ws_bound, find_char, lemma_find_char_at,
};
use crate::unicode::{lower_text, to_lower};

verus! {

/// A name for one heading of one org file.
#[derive(Debug, Clone, PartialEq, Eq)]
pub enum OrgLocator {
    /// `id:<uuid>`: the heading whose `:ID:` property is the uuid.
    Id(String),
    /// `<file>::#<custom-id>`: the heading of the file whose `:CUSTOM_ID:` is given.
    CustomId { file: String, custom_id: String },
    /// `<file>::*/<a>/<b>`: the heading reached by following titles from the top.
    OutlinePath { file: String, path: Vec<String> },
    /// `<file>::<line>`: the heading at or before the 1-based line.
    LineRef { file: String, line: usize },
}

/// A heading that a locator names.
#[derive(Debug, Clone)]
pub struct ResolvedEntry {
    pub file: String,
    /// 1-based line of the heading.
    pub line: usize,
    pub heading_text: String,
    pub level: usize,
    /// Index of the entry in its document.
    pub entry_index: usize,
}

/// Why a locator could not be parsed or resolved.
#[derive(Debug, Clone, PartialEq, Eq)]
pub enum LocatorError {
    InvalidFormat(String),
    FileNotFound(String),
    EntryNotFound(String),
    IoError(String),
}

/// A locator as plain values.
pub enum LocatorView {
    Id(Seq<char>),
    CustomId(Seq<char>, Seq<char>),
    OutlinePath(Seq<char>, Seq<Seq<char>>),
    LineRef(Seq<char>, int),
}

pub open spec fn locator_view(l: OrgLocator) -> LocatorView {
    match l {
        OrgLocator::Id(u) => LocatorView::Id(u@),
        OrgLocator::CustomId { file, custom_id } => LocatorView::CustomId(file@, custom_id@),
        OrgLocator::OutlinePath { file, path } => LocatorView::OutlinePath(file@, strings_view(path@)),
        OrgLocator::LineRef { file, line } => LocatorView::LineRef(file@, line as int),
    }
}

/// The segments of an outline path: the trimmed, non-empty pieces between `/`.
pub open spec fn path_segments(p: Seq<char>) -> Seq<Seq<char>> {
    split_char(p, '/').map_values(|x: Seq<char>| trim(x)).filter(|x: Seq<char>| x.len() > 0)
}

/// What parsing `input` gives: the locator, or the message of the format error.
pub open spec fn parse_spec(input: Seq<char>) -> Result<LocatorView, Seq<char>> {
    let t = trim(input);
    if starts_with(t, "id:"@) {
        let u = trim(t.skip(3));
        if u.len() == 0 {
            Err("id: locator has empty UUID"@)
        } else {
            Ok(LocatorView::Id(u))
        }
    } else {
        match find(t, "::"@) {
            Some(sep) => {
                let file = t.take(sep);
                let search = t.skip(sep + 2);
                if file.len() == 0 {
                    Err("empty file path before ::"@)
                } else if starts_with(search, "#"@) {
                    let c = trim(search.skip(1));
                    if c.len() == 0 {
                        Err("empty CUSTOM_ID after ::#"@)
                    } else {
                        Ok(LocatorView::CustomId(file, c))
                    }
                } else if starts_with(search, "*/"@) {
                    let segs = path_segments(search.skip(2));
                    if segs.len() == 0 {
                        Err("empty outline path after ::*/"@)
                    } else {
                        Ok(LocatorView::OutlinePath(file, segs))
                    }
                } else {
                    match parse_unsigned(trim(search), usize::MAX as nat) {
                        Some(n) => if n == 0 {
                            Err("line number must be >= 1"@)
                        } else {
                            Ok(LocatorView::LineRef(file, n as int))
                        },
                        None => Err("unrecognized search syntax after '::': "@ + search),
                    }
                }
            },
            None => Err("locator must start with 'id:' or contain '::': "@ + t),
        }
    }
}

/// `segs` joined by `/`.
pub open spec fn join_slash(segs: Seq<Seq<char>>) -> Seq<char>
    decreases segs.len(),
{
    if segs.len() == 0 {
        Seq::empty()
    } else if segs.len() == 1 {
        segs[0]
    } else {
        join_slash(segs.drop_last()) + "/"@ + segs.last()
    }
}

/// The canonical string of a locator.
pub open spec fn canonical_spec(l: LocatorView) -> Seq<char> {
    match l {
        LocatorView::Id(u) => "id:"@ + u,
        LocatorView::CustomId(f, c) => f + "::#"@ + c,
        LocatorView::OutlinePath(f, p) => f + "::*/"@ + join_slash(p),
        LocatorView::LineRef(f, n) => f + "::"@ + dec_digits(n as nat),
    }
}

fn invalid(msg: Vec<char>) -> (e: LocatorError)
    ensures
        e matches LocatorError::InvalidFormat(m) && m@ == msg@,
{
    LocatorError::InvalidFormat(string_from(msg.as_slice()))
}

fn invalid_str(msg: &str) -> (e: LocatorError)
    ensures
        e matches LocatorError::InvalidFormat(m) && m@ == msg@,
{
    LocatorError::InvalidFormat(msg.to_owned())
}

/// The trimmed, non-empty pieces of `s[lo..hi]` between `/`.
fn segments_at(s: &[char], lo: usize, hi: usize) -> (r: Vec<String>)
    requires
        lo <= hi <= s@.len(),
    ensures
        strings_view(r@) == path_segments(s@.subrange(lo as int, hi as int)),
{
    let pieces = split_ranges(s, lo, hi, '/');
    let ghost pv = ranges_view(s@, pieces@);
    let ghost tv = pv.map_values(|x: Seq<char>| trim(x));
    let mut r: Vec<String> = Vec::new();
    let mut i: usize = 0;
    while i < pieces.len()
        invariant
            i <= pieces@.len(),
            pv == ranges_view(s@, pieces@),
            tv == pv.map_values(|x: Seq<char>| trim(x)),
            forall|j: int| 0 <= j < pieces@.len() ==> lo <= (#[trigger] pieces@[j]).0 <= pieces@[j].1 <= hi,
            hi <= s@.len(),
            strings_view(r@) == tv.take(i as int).filter(|x: Seq<char>| x.len() > 0),
        decreases pieces.len() - i,
    {
        let (a, b) = pieces[i];
        let (t0, t1) = trim_range(s, a, b);
        assert(pv[i as int] == s@.subrange(a as int, b as int));
        assert(tv.take(i + 1) =~= tv.take(i as int).push(tv[i as int]));
        proof {
            reveal(Seq::filter);
            assert(tv.take(i + 1).drop_last() =~= tv.take(i as int));
        }
        if t0 < t1 {
            let ghost before = strings_view(r@);
            r.push(string_of(s, t0, t1));
            assert(strings_view(r@) =~= before.push(s@.subrange(t0 as int, t1 as int)));
        }
        i += 1;
    }
    assert(tv.take(pieces@.len() as int) =~= tv);
    r
}

impl OrgLocator {
    /// Parses a locator: `id:<uuid>`, `<file>::#<custom-id>`,
    /// `<file>::*/<path>` or `<file>::<line>`, after trimming.
    pub fn parse(input: &str) -> (r: Result<OrgLocator, LocatorError>)
        ensures
            r matches Ok(l) ==> parse_spec(input@) == Ok::<LocatorView, Seq<char>>(locator_view(l)),
            r matches Err(e) ==> parse_spec(input@) matches Err(m) && e matches LocatorError::InvalidFormat(x) && x@ == m,
    {
        let c = str_chars(input);
        let s = c.as_slice();
        assert(s@.subrange(0, s@.len() as int) =~= s@);
        let (t0, t1) = trim_range(s, 0, s.len());
        let ghost t = s@.subrange(t0 as int, t1 as int);
        if starts_with_str(s, t0, t1, "id:") {
            proof {
                reveal_strlit("id:");
            }
            let (u0, u1) = trim_range(s, t0 + 3, t1);
            assert(s@.subrange(t0 + 3, t1 as int) =~= t.skip(3));
            if u0 == u1 {
                return Err(invalid_str("id: locator has empty UUID"));
            }
            return Ok(OrgLocator::Id(string_of(s, u0, u1)));
        }
        match find_str(s, t0, t1, "::") {
            Some(sep) => {
                proof {
                    reveal_strlit("::");
                }
                assert(s@.subrange(t0 as int, sep as int) =~= t.take(sep - t0));
                assert(s@.subrange(sep + 2, t1 as int) =~= t.skip(sep - t0 + 2));
                let ghost search = t.skip(sep - t0 + 2);
                if sep == t0 {
                    return Err(invalid_str("empty file path before ::"));
                }
                let file = string_of(s, t0, sep);
                let r0 = sep + 2;
                if starts_with_str(s, r0, t1, "#") {
                    proof {
                        reveal_strlit("#");
                    }
                    let (c0, c1) = trim_range(s, r0 + 1, t1);
                    assert(s@.subrange(r0 + 1, t1 as int) =~= search.skip(1));
                    if c0 == c1 {
                        return Err(invalid_str("empty CUSTOM_ID after ::#"));
                    }
                    return Ok(OrgLocator::CustomId { file, custom_id: string_of(s, c0, c1) });
                }
                if starts_with_str(s, r0, t1, "*/") {
                    proof {
                        reveal_strlit("*/");
                    }
                    assert(s@.subrange(r0 + 2, t1 as int) =~= search.skip(2));
                    let path = segments_at(s, r0 + 2, t1);
                    if path.len() == 0 {
                        return Err(invalid_str("empty outline path after ::*/"));
                    }
                    return Ok(OrgLocator::OutlinePath { file, path });
                }
                let (n0, n1) = trim_range(s, r0, t1);
                match parse_unsigned_at(s, n0, n1, usize::MAX as u64) {
                    Some(n) => {
                        if n == 0 {
                            return Err(invalid_str("line number must be >= 1"));
                        }
                        Ok(OrgLocator::LineRef { file, line: n as usize })
                    },
                    None => {
                        let mut m: Vec<char> = Vec::new();
                        push_str(&mut m, "unrecognized search syntax after '::': ");
                        push_all(&mut m, &s[r0..t1]);
                        Err(invalid(m))
                    },
                }
            },
            None => {
                let mut m: Vec<char> = Vec::new();
                push_str(&mut m, "locator must start with 'id:' or contain '::': ");
                push_all(&mut m, &s[t0..t1]);
                Err(invalid(m))
            },
        }
    }

    /// The canonical string of the locator, as `parse` reads it.
    pub fn to_canonical_string(&self) -> (r: String)
        ensures
            r@ == canonical_spec(locator_view(*self)),
    {
        let mut v: Vec<char> = Vec::new();
        match self {
            OrgLocator::Id(u) => {
                push_str(&mut v, "id:");
                push_str(&mut v, u.as_str());
            },
            OrgLocator::CustomId { file, custom_id } => {
                push_str(&mut v, file.as_str());
                push_str(&mut v, "::#");
                push_str(&mut v, custom_id.as_str());
            },
            OrgLocator::OutlinePath { file, path } => {
                push_str(&mut v, file.as_str());
                push_str(&mut v, "::*/");
                let ghost base = v@;
                let ghost pv = strings_view(path@);
                let mut i: usize = 0;
                while i < path.len()
                    invariant
                        i <= path@.len(),
                        pv == strings_view(path@),
                        v@ == base + join_slash(pv.take(i as int)),
                    decreases path.len() - i,
                {
                    let ghost before = v@;
                    if i > 0 {
                        push_str(&mut v, "/");
                    }
                    push_str(&mut v, path[i].as_str());
                    proof {
                        let tk = pv.take(i + 1);
                        assert(tk.drop_last() =~= pv.take(i as int));
                        assert(tk.last() == path@[i as int]@);
                        if i == 0 {
                            assert(pv.take(0) =~= Seq::<Seq<char>>::empty());
                            assert(join_slash(tk) == tk[0]);
                        }
                    }
                    i += 1;
                }
                assert(pv.take(path@.len() as int) =~= pv);
            },
            OrgLocator::LineRef { file, line } => {
                push_str(&mut v, file.as_str());
                push_str(&mut v, "::");
                push_dec(&mut v, *line);
            },
        }
        string_from(v.as_slice())
    }

    /// The message of a locator error.
    pub fn describe(e: &LocatorError) -> (r: String)
        ensures
            r@ == error_message(*e),
    {
        let mut v: Vec<char> = Vec::new();
        match e {
            LocatorError::InvalidFormat(s) => {
                push_str(&mut v, "invalid locator format: ");
                push_str(&mut v, s.as_str());
            },
            LocatorError::FileNotFound(p) => {
                push_str(&mut v, "file not found: ");
                push_str(&mut v, p.as_str());
            },
            LocatorError::EntryNotFound(s) => {
                push_str(&mut v, "entry not found: ");
                push_str(&mut v, s.as_str());
            },
            LocatorError::IoError(s) => {
                push_str(&mut v, "I/O error: ");
                push_str(&mut v, s.as_str());
            },
        }
        string_from(v.as_slice())
    }
}

/// The message that a locator error shows.
pub open spec fn error_message(e: LocatorError) -> Seq<char> {
    match e {
        LocatorError::InvalidFormat(s) => "invalid locator format: "@ + s@,
        LocatorError::FileNotFound(p) => "file not found: "@ + p@,
        LocatorError::EntryNotFound(s) => "entry not found: "@ + s@,
        LocatorError::IoError(s) => "I/O error: "@ + s@,
    }
}


// ---------------------------------------------------------------------------
// Locators of entries, and resolution in a document
// ---------------------------------------------------------------------------
/// The locator that `locator_for_entry` gives: by `ID`, else by `CUSTOM_ID`,
/// else by outline path.
pub open spec fn entry_locator(doc: OrgDocument, i: int) -> LocatorView {
    match doc.entries@[i].properties.get_spec("ID"@) {
        Some(id) => LocatorView::Id(id),
        None => match doc.entries@[i].properties.get_spec("CUSTOM_ID"@) {
            Some(c) => LocatorView::CustomId(doc.file@, c),
            None => LocatorView::OutlinePath(doc.file@, titles_path(doc.entries@, i)),
        },
    }
}

/// The most specific locator of entry `entry_idx`: its `ID`, else its
/// `CUSTOM_ID`, else its outline path.
pub fn locator_for_entry(doc: &OrgDocument, entry_idx: usize) -> (r: OrgLocator)
    requires
        doc.wf(),
        entry_idx < doc.entries@.len(),
    ensures
        locator_view(r) == entry_locator(*doc, entry_idx as int),
{
    let entry = &doc.entries[entry_idx];
    match entry.properties.get("ID") {
        Some(id) => {
            return OrgLocator::Id(id.clone());
        },
        None => {},
    }
    match entry.properties.get("CUSTOM_ID") {
        Some(c) => {
            return OrgLocator::CustomId { file: doc.file.clone(), custom_id: c.clone() };
        },
        None => {},
    }
    let titles = doc.outline_path(entry_idx);
    let mut path: Vec<String> = Vec::new();
    let mut i: usize = 0;
    while i < titles.len()
        invariant
            i <= titles@.len(),
            strings_view(path@) == titles@.map_values(|t: &str| t@).take(i as int),
        decreases titles.len() - i,
    {
        let ghost before = strings_view(path@);
        path.push(titles[i].to_owned());
        assert(strings_view(path@) =~= before.push(titles@[i as int]@));
        assert(titles@.map_values(|t: &str| t@).take(i + 1) =~= titles@.map_values(|t: &str| t@).take(i as int).push(titles@[i as int]@));
        i += 1;
    }
    assert(titles@.map_values(|t: &str| t@).take(titles@.len() as int) =~= titles@.map_values(|t: &str| t@));
    OrgLocator::OutlinePath { file: doc.file.clone(), path }
}

/// The top-level entries among the first `n`, in order.
pub open spec fn top_level(es: Seq<crate::document::OrgEntry>, n: int) -> Seq<usize>
    decreases n,
{
    if n <= 0 {
        Seq::empty()
    } else {
        top_level(es, n - 1) + if es[n - 1].parent is None {
            seq![(n - 1) as usize]
        } else {
            Seq::<usize>::empty()
        }
    }
}

/// The first of `cands` whose title equals `seg` up to case.
pub open spec fn first_titled(es: Seq<crate::document::OrgEntry>, cands: Seq<usize>, seg: Seq<char>) -> Option<usize>
    decreases cands.len(),
{
    if cands.len() == 0 {
        None
    } else if lower_text(es[cands[0] as int].title@) == lower_text(seg) {
        Some(cands[0])
    } else {
        first_titled(es, cands.drop_first(), seg)
    }
}

/// The entry reached by following `path` from segment `d` on among `cands`.
pub open spec fn walk_path(es: Seq<crate::document::OrgEntry>, cands: Seq<usize>, path: Seq<Seq<char>>, d: int) -> Option<usize>
    decreases path.len() - d,
{
    if d < 0 || d >= path.len() {
        None
    } else {
        match first_titled(es, cands, path[d]) {
            None => None,
            Some(i) => if d + 1 < path.len() {
                walk_path(es, es[i as int].children@, path, d + 1)
            } else {
                Some(i)
            },
        }
    }
}

/// The last entry, scanning from `i`, whose heading line is at or before `line`,
/// stopping at the first one after it.
pub open spec fn line_scan(es: Seq<crate::document::OrgEntry>, line: int, i: int, best: Option<usize>) -> Option<usize>
    decreases es.len() - i,
{
    if i < 0 || i >= es.len() {
        best
    } else if es[i].heading_line <= line {
        line_scan(es, line, i + 1, Some(i as usize))
    } else {
        best
    }
}

/// The entry of the document that a locator names.
pub open spec fn resolve_spec(l: LocatorView, doc: OrgDocument) -> Option<usize> {
    match l {
        LocatorView::Id(id) => first_with(doc.entries@, "ID"@, id),
        LocatorView::CustomId(_f, c) => first_with(doc.entries@, "CUSTOM_ID"@, c),
        LocatorView::OutlinePath(_f, p) => walk_path(doc.entries@, top_level(doc.entries@, doc.entries@.len() as int), p, 0),
        LocatorView::LineRef(_f, n) => line_scan(doc.entries@, n, 0, None),
    }
}

/// The file that a resolved entry names: the locator's, or the document's for an id.
pub open spec fn resolved_file(l: LocatorView, doc: OrgDocument) -> Seq<char> {
    match l {
        LocatorView::Id(_) => doc.file@,
        LocatorView::CustomId(f, _) => f,
        LocatorView::OutlinePath(f, _) => f,
        LocatorView::LineRef(f, _) => f,
    }
}

proof fn lemma_kids_bound(es: Seq<crate::document::OrgEntry>, p: int, n: int)
    ensures
        forall|j: int| 0 <= j < crate::document::kids(es, p, n).len() ==> (#[trigger] crate::document::kids(es, p, n)[j]) < n,
    decreases n,
{
    if n > 0 {
        lemma_kids_bound(es, p, n - 1);
        let k0 = crate::document::kids(es, p, n - 1);
        assert forall|j: int| 0 <= j < crate::document::kids(es, p, n).len() implies (#[trigger] crate::document::kids(es, p, n)[j]) < n by {
            if j < k0.len() {
                assert(crate::document::kids(es, p, n)[j] == k0[j]);
            }
        }
    }
}

fn top_level_exec(doc: &OrgDocument) -> (r: Vec<usize>)
    ensures
        r@ == top_level(doc.entries@, doc.entries@.len() as int),
        forall|j: int| 0 <= j < r@.len() ==> (#[trigger] r@[j]) < doc.entries@.len(),
{
    let mut r: Vec<usize> = Vec::new();
    let mut i: usize = 0;
    while i < doc.entries.len()
        invariant
            i <= doc.entries@.len(),
            r@ == top_level(doc.entries@, i as int),
            forall|j: int| 0 <= j < r@.len() ==> (#[trigger] r@[j]) < i,
        decreases doc.entries.len() - i,
    {
        if doc.entries[i].parent.is_none() {
            r.push(i);
        }
        i += 1;
    }
    r
}

/// The entry of `doc` that a locator names, with the file of the answer.
///
/// Outline path segments are matched against titles up to case; a line
/// reference names the last heading at or before its line.
pub fn resolve_in_document(locator: &OrgLocator, doc: &OrgDocument) -> (r: Result<ResolvedEntry, LocatorError>)
    requires
        doc.wf(),
    ensures
        r matches Ok(e) ==> resolve_spec(locator_view(*locator), *doc) == Some(e.entry_index) && e.entry_index < doc.entries@.len()
            && e.file@ == resolved_file(locator_view(*locator), *doc)
            && e.line == doc.entries@[e.entry_index as int].heading_line
            && e.heading_text@ == doc.entries@[e.entry_index as int].title@
            && e.level == doc.entries@[e.entry_index as int].level,
        r matches Err(x) ==> resolve_spec(locator_view(*locator), *doc) is None
            && (x matches LocatorError::EntryNotFound(m) && m@ == canonical_spec(locator_view(*locator))),
{
    let _n = doc.entries.len();
    let found: Option<usize> = match locator {
        OrgLocator::Id(id) => doc.find_by_id(id.as_str()),
        OrgLocator::CustomId { file: _, custom_id } => doc.find_by_custom_id(custom_id.as_str()),
        OrgLocator::OutlinePath { file: _, path } => walk_exec(doc, path),
        OrgLocator::LineRef { file: _, line } => {
            let mut best: Option<usize> = None;
            let mut i: usize = 0;
            while i < doc.entries.len()
                invariant
                    i <= doc.entries@.len(),
                    line_scan(doc.entries@, *line as int, 0, None) == line_scan(doc.entries@, *line as int, i as int, best),
                    best matches Some(b) ==> b < doc.entries@.len(),
                ensures
                    best == line_scan(doc.entries@, *line as int, 0, None),
                    best matches Some(b) ==> b < doc.entries@.len(),
                decreases doc.entries.len() - i,
            {
                if doc.entries[i].heading_line <= *line {
                    best = Some(i);
                } else {
                    break;
                }
                i += 1;
            }
            best
        },
    };
    proof {
        crate::document::lemma_first_with_bound(doc.entries@, "ID"@, match locator_view(*locator) { LocatorView::Id(x) => x, _ => Seq::empty() });
        crate::document::lemma_first_with_bound(doc.entries@, "CUSTOM_ID"@, match locator_view(*locator) { LocatorView::CustomId(_f, x) => x, _ => Seq::empty() });
    }
    match found {
        Some(idx) => {
            let file = match locator {
                OrgLocator::Id(_) => doc.file.clone(),
                OrgLocator::CustomId { file, custom_id: _ } => file.clone(),
                OrgLocator::OutlinePath { file, path: _ } => file.clone(),
                OrgLocator::LineRef { file, line: _ } => file.clone(),
            };
            let e = &doc.entries[idx];
            Ok(ResolvedEntry { file, line: e.heading_line, heading_text: e.title.clone(), level: e.level, entry_index: idx })
        },
        None => {
            let m = locator.to_canonical_string();
            Err(LocatorError::EntryNotFound(m))
        },
    }
}

/// Follows the titles of `path` down the tree of `doc`.
fn walk_exec(doc: &OrgDocument, path: &Vec<String>) -> (r: Option<usize>)
    requires
        doc.wf(),
    ensures
        r == walk_path(doc.entries@, top_level(doc.entries@, doc.entries@.len() as int), strings_view(path@), 0),
        r matches Some(i) ==> i < doc.entries@.len(),
{
    let ghost es = doc.entries@;
    let ghost pv = strings_view(path@);
    if path.len() == 0 {
        return None;
    }
    let mut cands = top_level_exec(doc);
    let mut d: usize = 0;
    loop
        invariant
            d < path@.len(),
            es == doc.entries@,
            pv == strings_view(path@),
            crate::document::tree_wf(es),
            forall|j: int| 0 <= j < cands@.len() ==> (#[trigger] cands@[j]) < es.len(),
            walk_path(es, top_level(es, es.len() as int), pv, 0) == walk_path(es, cands@, pv, d as int),
        decreases path.len() - d,
    {
        let seg = to_lower(str_chars(path[d].as_str()).as_slice());
        assert(pv[d as int] == path@[d as int]@);
        let ghost cv = cands@;
        assert(cv.skip(0) =~= cv);
        let mut k: usize = 0;
        let mut hit: Option<usize> = None;
        while k < cands.len()
            invariant_except_break
                hit is None,
            invariant
                k <= cands@.len(),
                cv == cands@,
                seg@ == lower_text(pv[d as int]),
                forall|j: int| 0 <= j < cands@.len() ==> (#[trigger] cands@[j]) < es.len(),
                es == doc.entries@,
                first_titled(es, cv, pv[d as int]) == first_titled(es, cv.skip(k as int), pv[d as int]),
            ensures
                hit matches Some(i) ==> first_titled(es, cv, pv[d as int]) == Some(i) && i < es.len(),
                hit is None ==> first_titled(es, cv, pv[d as int]) is None,
            decreases cands.len() - k,
        {
            let c = cands[k];
            let t = to_lower(str_chars(doc.entries[c].title.as_str()).as_slice());
            assert(cv.skip(k as int)[0] == cv[k as int]);
            assert(cv.skip(k as int).drop_first() =~= cv.skip(k + 1));
            if crate::text::seq_eq(t.as_slice(), seg.as_slice()) {
                hit = Some(c);
                break;
            }
            k += 1;
        }
        match hit {
            None => {
                return None;
            },
            Some(i) => {
                if d + 1 < path.len() {
                    proof {
                        let n = es.len() as int;
                        lemma_kids_bound(es, i as int, n);
                    }
                    cands = doc.entries[i].children.clone();
                    assert(cands@ == es[i as int].children@);
                    d += 1;
                } else {
                    return Some(i);
                }
            },
        }
    }
}

// ---------------------------------------------------------------------------
// Reading back a canonical string
// ---------------------------------------------------------------------------
/// A text whose ends are no whitespace is its own trim.
proof fn lemma_trim_fixed(t: Seq<char>)
    requires
        t.len() > 0 ==> !is_ws(t[0]) && !is_ws(t.last()),
    ensures
        trim(t) == t,
{
    lemma_lead_ws_at(t, 0);
    assert(trim_start(t) =~= t);
    lemma_trail_ws_at(t, t.len() as int);
    assert(trim(t) =~= t);
}

/// The ends of a trimmed text are no whitespace.
proof fn lemma_trim_ends(t: Seq<char>)
    ensures
        trim(t).len() > 0 ==> !is_ws(trim(t)[0]) && !is_ws(trim(t).last()),
        trim(trim(t)) == trim(t),
        forall|j: int| 0 <= j < trim(t).len() ==> #[trigger] trim(t)[j] == t[lead_ws(t) + j],
        trim(t).len() <= t.len(),
        lead_ws(t) + trim(t).len() <= t.len(),
{
    lemma_lead_ws_bound(t);
    let ts = trim_start(t);
    lemma_trail_ws_bound(ts);
    let u = trim(t);
    if u.len() > 0 {
        assert(u[0] == ts[0]);
        assert(ts[0] == t[lead_ws(t) as int]);
        assert(u.last() == ts[ts.len() - trail_ws(ts) - 1]);
    }
    lemma_trim_fixed(u);
}

/// The decimal digits of `n` are digits, not empty, and read back as `n`.
proof fn lemma_dec_digits(n: nat)
    ensures
        dec_digits(n).len() > 0,
        all_digits(dec_digits(n)),
        dec_value(dec_digits(n)) == n,
    decreases n,
{
    if n < 10 {
        assert(digit_char(n) as u32 == 48 + n);
        assert(dec_digits(n) =~= seq![digit_char(n)]);
        assert(dec_digits(n).drop_last() =~= Seq::<char>::empty());
        assert(dec_value(dec_digits(n)) == dec_value(Seq::<char>::empty()) * 10 + ((digit_char(n) as u32) - 48) as nat);
    } else {
        lemma_dec_digits(n / 10);
        let d = dec_digits(n);
        assert(d.drop_last() =~= dec_digits(n / 10));
        assert(digit_char(n % 10) as u32 == 48 + n % 10);
        assert(d.last() == digit_char(n % 10));
        assert((n / 10) * 10 + n % 10 == n) by (nonlinear_arith);
        assert(dec_value(d) == dec_value(d.drop_last()) * 10 + ((d.last() as u32) - 48) as nat);
        assert forall|i: int| 0 <= i < d.len() implies is_digit(#[trigger] d[i]) by {
            if i < d.len() - 1 {
                assert(d[i] == dec_digits(n / 10)[i]);
            }
        }
    }
}

/// `find` sees only the text up to the end of the first match.
proof fn lemma_find_prefix(a: Seq<char>, b: Seq<char>, p: Seq<char>, k: int)
    requires
        find(a, p) == Some(k),
        0 <= k,
        k + p.len() <= a.len(),
        k + p.len() <= b.len(),
        a.take(k + p.len()) == b.take(k + p.len()),
    ensures
        find(b, p) == Some(k),
    decreases k,
{
    assert(a.take(p.len() as int) =~= a.take(k + p.len()).take(p.len() as int));
    assert(b.take(p.len() as int) =~= b.take(k + p.len()).take(p.len() as int));
    if k == 0 {
        if !crate::text::starts_with(a, p) {
            crate::text::lemma_find_bound(a.drop_first(), p);
        }
        assert(crate::text::starts_with(b, p));
    } else {
        assert(!crate::text::starts_with(a, p));
        assert(!crate::text::starts_with(b, p));
        assert(b.len() > 0);
        assert(find(a.drop_first(), p) == Some(k - 1));
        assert(a.drop_first().take(k - 1 + p.len()) =~= a.take(k + p.len()).drop_first());
        assert(b.drop_first().take(k - 1 + p.len()) =~= b.take(k + p.len()).drop_first());
        lemma_find_prefix(a.drop_first(), b.drop_first(), p, k - 1);
        assert(find(b, p) == match find(b.drop_first(), p) {
            Some(i) => Some(i + 1),
            None => None,
        });
    }
}

/// Whether no piece of `segs` holds `/`.
pub open spec fn no_slash(segs: Seq<Seq<char>>) -> bool {
    forall|i: int, j: int| 0 <= i < segs.len() && 0 <= j < segs[i].len() ==> #[trigger] segs[i][j] != '/'
}

/// Splitting a text with no `c` gives the text itself.
proof fn lemma_split_none(x: Seq<char>, c: char)
    requires
        forall|j: int| 0 <= j < x.len() ==> #[trigger] x[j] != c,
    ensures
        split_char(x, c) == seq![x],
{
    lemma_find_char_at(x, c, x.len() as int);
}

/// Splitting `x`, `c`, `y`, where `x` has no `c`, gives `x` and the pieces of `y`.
proof fn lemma_split_cons(x: Seq<char>, y: Seq<char>, c: char)
    requires
        forall|j: int| 0 <= j < x.len() ==> #[trigger] x[j] != c,
    ensures
        split_char(x + seq![c] + y, c) == seq![x] + split_char(y, c),
{
    let t = x + seq![c] + y;
    assert forall|j: int| 0 <= j < x.len() implies #[trigger] t[j] != c by {
        assert(t[j] == x[j]);
    }
    lemma_find_char_at(t, c, x.len() as int);
    assert(t.take(x.len() as int) =~= x);
    assert(t.skip(x.len() as int + 1) =~= y);
}

/// `join_slash` seen from the front.
proof fn lemma_join_front(segs: Seq<Seq<char>>)
    requires
        segs.len() >= 2,
    ensures
        join_slash(segs) == segs[0] + "/"@ + join_slash(segs.drop_first()),
    decreases segs.len(),
{
    assert(join_slash(segs) == join_slash(segs.drop_last()) + "/"@ + segs.last());
    if segs.len() == 2 {
        assert(segs.drop_last() =~= seq![segs[0]]);
        assert(segs.drop_first() =~= seq![segs[1]]);
        assert(join_slash(seq![segs[0]]) == segs[0]);
        assert(join_slash(seq![segs[1]]) == segs[1]);
        assert(join_slash(segs) =~= segs[0] + "/"@ + join_slash(segs.drop_first()));
    } else {
        let d = segs.drop_last();
        lemma_join_front(d);
        let f = segs.drop_first();
        assert(d.drop_first() =~= f.drop_last());
        assert(d[0] == segs[0]);
        assert(f.last() == segs.last());
        assert(join_slash(f) == join_slash(f.drop_last()) + "/"@ + f.last());
        assert(join_slash(segs) =~= segs[0] + "/"@ + join_slash(f));
    }
}

/// Splitting the `/`-join of pieces without `/` gives the pieces back.
proof fn lemma_split_join(segs: Seq<Seq<char>>)
    requires
        segs.len() >= 1,
        no_slash(segs),
    ensures
        split_char(join_slash(segs), '/') == segs,
    decreases segs.len(),
{
    reveal_strlit("/");
    assert forall|j: int| 0 <= j < segs[0].len() implies #[trigger] segs[0][j] != '/' by {
        assert(segs[0][j] != '/');
    }
    if segs.len() == 1 {
        lemma_split_none(segs[0], '/');
        assert(seq![segs[0]] =~= segs);
    } else {
        let d = segs.drop_first();
        assert forall|i: int, j: int| 0 <= i < d.len() && 0 <= j < d[i].len() implies #[trigger] d[i][j] != '/' by {
            assert(d[i] == segs[i + 1]);
        }
        lemma_split_join(d);
        lemma_join_front(segs);
        assert("/"@ =~= seq!['/']);
        lemma_split_cons(segs[0], join_slash(d), '/');
        assert(segs[0] + "/"@ + join_slash(d) =~= segs[0] + seq!['/'] + join_slash(d));
        assert(seq![segs[0]] + d =~= segs);
    }
}

/// Every element of a filtered sequence has what every element had.
proof fn lemma_filter_keeps<A>(s: Seq<A>, pred: spec_fn(A) -> bool, q: spec_fn(A) -> bool)
    requires
        forall|i: int| 0 <= i < s.len() ==> q(#[trigger] s[i]),
    ensures
        forall|i: int| 0 <= i < s.filter(pred).len() ==> q(#[trigger] s.filter(pred)[i]),
    decreases s.len(),
{
    reveal(Seq::filter);
    if s.len() > 0 {
        let d = s.drop_last();
        assert forall|i: int| 0 <= i < d.len() implies q(#[trigger] d[i]) by {
            assert(d[i] == s[i]);
        }
        lemma_filter_keeps(d, pred, q);
        let f = s.filter(pred);
        assert forall|i: int| 0 <= i < f.len() implies q(#[trigger] f[i]) by {
            if i < d.filter(pred).len() {
                assert(f[i] == d.filter(pred)[i]);
            } else {
                assert(f[i] == s.last());
            }
        }
    }
}

/// Filtering keeps a sequence whose elements all pass.
proof fn lemma_filter_all<A>(s: Seq<A>, pred: spec_fn(A) -> bool)
    requires
        forall|i: int| 0 <= i < s.len() ==> pred(#[trigger] s[i]),
    ensures
        s.filter(pred) == s,
    decreases s.len(),
{
    reveal(Seq::filter);
    if s.len() > 0 {
        let d = s.drop_last();
        assert forall|i: int| 0 <= i < d.len() implies pred(#[trigger] d[i]) by {
            assert(d[i] == s[i]);
        }
        lemma_filter_all(d, pred);
        assert(pred(s[s.len() - 1]));
        assert(d.push(s.last()) =~= s);
    }
}

proof fn lemma_find_char_facts(t: Seq<char>, c: char)
    ensures
        find_char(t, c) is None ==> forall|j: int| 0 <= j < t.len() ==> #[trigger] t[j] != c,
        find_char(t, c) matches Some(k) ==> 0 <= k < t.len() && t[k] == c && forall|j: int| 0 <= j < k ==> #[trigger] t[j] != c,
    decreases t.len(),
{
    if t.len() > 0 && t[0] != c {
        let d = t.drop_first();
        lemma_find_char_facts(d, c);
        assert forall|j: int| 0 < j < t.len() implies #[trigger] t[j] == d[j - 1] by {}
    }
}

/// No piece of a split holds the separator.
proof fn lemma_split_pieces(t: Seq<char>, c: char)
    ensures
        forall|i: int, j: int| 0 <= i < split_char(t, c).len() && 0 <= j < split_char(t, c)[i].len() ==> #[trigger] split_char(t, c)[i][j] != c,
    decreases t.len(),
{
    lemma_find_char_facts(t, c);
    match find_char(t, c) {
        None => {},
        Some(k) => {
            let rest = t.skip(k + 1);
            lemma_split_pieces(rest, c);
            let sp = split_char(t, c);
            assert(sp == seq![t.take(k)] + split_char(rest, c));
            assert forall|i: int, j: int| 0 <= i < sp.len() && 0 <= j < sp[i].len() implies #[trigger] sp[i][j] != c by {
                if i > 0 {
                    assert(sp[i] == split_char(rest, c)[i - 1]);
                }
            }
        },
    }
}

/// Whether `x` has no `/` and is its own trim.
pub open spec fn clean_piece(x: Seq<char>) -> bool {
    &&& forall|j: int| 0 <= j < x.len() ==> #[trigger] x[j] != '/'
    &&& x.len() > 0 ==> !is_ws(x[0]) && !is_ws(x.last())
}

/// The segments of an outline path are non-empty, trimmed, and hold no `/`.
proof fn lemma_segments_shape(p: Seq<char>)
    ensures
        no_slash(path_segments(p)),
        forall|i: int| 0 <= i < path_segments(p).len() ==> (#[trigger] path_segments(p)[i]).len() > 0 && clean_piece(
            path_segments(p)[i],
        ),
{
    let sp = split_char(p, '/');
    lemma_split_pieces(p, '/');
    let m = sp.map_values(|x: Seq<char>| trim(x));
    assert forall|i: int| 0 <= i < m.len() implies clean_piece(#[trigger] m[i]) by {
        lemma_trim_ends(sp[i]);
        assert(m[i] == trim(sp[i]));
        assert forall|j: int| 0 <= j < m[i].len() implies #[trigger] m[i][j] != '/' by {
            assert(m[i][j] == sp[i][lead_ws(sp[i]) + j]);
            assert(sp[i][lead_ws(sp[i]) + j] != '/');
        }
    }
    let pred = |x: Seq<char>| x.len() > 0;
    lemma_filter_keeps(m, pred, |x: Seq<char>| clean_piece(x));
    let f = m.filter(pred);
    assert(f == path_segments(p));
    assert forall|i: int| 0 <= i < f.len() implies (#[trigger] f[i]).len() > 0 && clean_piece(f[i]) by {
        m.lemma_filter_pred(pred, i);
    }
    assert forall|i: int, j: int| 0 <= i < f.len() && 0 <= j < f[i].len() implies #[trigger] f[i][j] != '/' by {
        assert(clean_piece(f[i]));
    }
}

/// The last character of a `/`-join is that of its last piece.
proof fn lemma_join_last(segs: Seq<Seq<char>>)
    requires
        segs.len() >= 1,
        segs.last().len() > 0,
    ensures
        join_slash(segs).len() > 0,
        join_slash(segs).last() == segs.last().last(),
{
    if segs.len() >= 2 {
        assert(join_slash(segs) == join_slash(segs.drop_last()) + "/"@ + segs.last());
    }
}

/// A segment list read back from its `/`-join.
proof fn lemma_segments_join(segs: Seq<Seq<char>>)
    requires
        segs.len() >= 1,
        no_slash(segs),
        forall|i: int| 0 <= i < segs.len() ==> (#[trigger] segs[i]).len() > 0 && clean_piece(segs[i]),
    ensures
        path_segments(join_slash(segs)) == segs,
{
    lemma_split_join(segs);
    let m = segs.map_values(|x: Seq<char>| trim(x));
    assert forall|i: int| 0 <= i < segs.len() implies #[trigger] m[i] == segs[i] by {
        assert(clean_piece(segs[i]));
        lemma_trim_fixed(segs[i]);
    }
    assert(m =~= segs);
    lemma_filter_all(segs, |x: Seq<char>| x.len() > 0);
}

/// The frame shared by the canonical strings `file::...`: trimming keeps
/// them, they do not start with `id:`, and their first `::` ends the file.
#[verifier::spinoff_prover]
#[verifier::rlimit(40)]
proof fn lemma_rt_frame(t: Seq<char>, sep: int, rest: Seq<char>)
    requires
        !is_ws(t[0]),
        !starts_with(t, "id:"@),
        find(t, "::"@) == Some(sep),
        1 <= sep,
        sep + 2 <= t.len(),
        t.skip(sep).take(2) == "::"@,
        rest.len() > 0,
        !is_ws(rest.last()),
    ensures
        trim(t.take(sep) + "::"@ + rest) == t.take(sep) + "::"@ + rest,
        !starts_with(t.take(sep) + "::"@ + rest, "id:"@),
        find(t.take(sep) + "::"@ + rest, "::"@) == Some(sep),
        (t.take(sep) + "::"@ + rest).take(sep) == t.take(sep),
        (t.take(sep) + "::"@ + rest).skip(sep + 2) == rest,
{
    reveal_strlit("::");
    reveal_strlit("id:");
    let c = t.take(sep) + "::"@ + rest;
    assert(c.take(sep + 2) =~= t.take(sep + 2));
    lemma_find_prefix(t, c, "::"@, sep);
    assert(c[0] == t[0]);
    assert(c.last() == rest.last());
    lemma_trim_fixed(c);
    assert(c.take(3) =~= t.take(3));
    assert(c.take(sep) =~= t.take(sep));
    assert(c.skip(sep + 2) =~= rest);
}

/// The facts about a parsed `file::search` text that the cases use.
#[verifier::spinoff_prover]
#[verifier::rlimit(40)]
proof fn lemma_rt_split(input: Seq<char>)
    requires
        parse_spec(input) is Ok,
        !starts_with(trim(input), "id:"@),
    ensures
        ({
            let t = trim(input);
            &&& find(t, "::"@) is Some
            &&& 1 <= find(t, "::"@)->Some_0
            &&& find(t, "::"@)->Some_0 + 2 <= t.len()
            &&& t.skip(find(t, "::"@)->Some_0).take(2) == "::"@
            &&& !is_ws(t[0])
        }),
{
    reveal_strlit("::");
    let t = trim(input);
    lemma_trim_ends(input);
    crate::text::lemma_find_bound(t, "::"@);
    let sep = find(t, "::"@)->Some_0;
    assert(t.skip(sep).take(2) =~= "::"@);
}

#[verifier::spinoff_prover]
#[verifier::rlimit(40)]
proof fn lemma_rt_custom(input: Seq<char>)
    requires
        parse_spec(input) is Ok,
        !starts_with(trim(input), "id:"@),
        starts_with(trim(input).skip(find(trim(input), "::"@)->Some_0 + 2), "#"@),
    ensures
        parse_spec(canonical_spec(parse_spec(input)->Ok_0)) == parse_spec(input),
{
    reveal_strlit("#");
    reveal_strlit("::#");
    reveal_strlit("::");
    lemma_rt_split(input);
    let t = trim(input);
    let sep = find(t, "::"@)->Some_0;
    let search = t.skip(sep + 2);
    let cid = trim(search.skip(1));
    lemma_trim_ends(search.skip(1));
    let rest = "#"@ + cid;
    lemma_rt_frame(t, sep, rest);
    let c = t.take(sep) + "::"@ + rest;
    assert(canonical_spec(parse_spec(input)->Ok_0) =~= c);
    assert(rest.skip(1) =~= cid);
    assert(rest.take(1) =~= "#"@);
}

#[verifier::spinoff_prover]
#[verifier::rlimit(40)]
proof fn lemma_rt_outline(input: Seq<char>)
    requires
        parse_spec(input) is Ok,
        !starts_with(trim(input), "id:"@),
        !starts_with(trim(input).skip(find(trim(input), "::"@)->Some_0 + 2), "#"@),
        starts_with(trim(input).skip(find(trim(input), "::"@)->Some_0 + 2), "*/"@),
    ensures
        parse_spec(canonical_spec(parse_spec(input)->Ok_0)) == parse_spec(input),
{
    reveal_strlit("#");
    reveal_strlit("*/");
    reveal_strlit("::*/");
    reveal_strlit("::");
    lemma_rt_split(input);
    let t = trim(input);
    let sep = find(t, "::"@)->Some_0;
    let search = t.skip(sep + 2);
    let segs = path_segments(search.skip(2));
    lemma_segments_shape(search.skip(2));
    assert(segs[segs.len() - 1].len() > 0 && clean_piece(segs[segs.len() - 1]));
    lemma_join_last(segs);
    let rest = "*/"@ + join_slash(segs);
    lemma_rt_frame(t, sep, rest);
    let c = t.take(sep) + "::"@ + rest;
    assert(canonical_spec(parse_spec(input)->Ok_0) =~= c);
    assert(rest.skip(2) =~= join_slash(segs));
    assert(rest.take(2) =~= "*/"@);
    assert(rest[0] == '*');
    lemma_segments_join(segs);
}

#[verifier::spinoff_prover]
#[verifier::rlimit(40)]
proof fn lemma_rt_line(input: Seq<char>)
    requires
        parse_spec(input) is Ok,
        !starts_with(trim(input), "id:"@),
        !starts_with(trim(input).skip(find(trim(input), "::"@)->Some_0 + 2), "#"@),
        !starts_with(trim(input).skip(find(trim(input), "::"@)->Some_0 + 2), "*/"@),
    ensures
        parse_spec(canonical_spec(parse_spec(input)->Ok_0)) == parse_spec(input),
{
    reveal_strlit("#");
    reveal_strlit("*/");
    reveal_strlit("::");
    lemma_rt_split(input);
    let t = trim(input);
    let sep = find(t, "::"@)->Some_0;
    let search = t.skip(sep + 2);
    let n = parse_unsigned(trim(search), usize::MAX as nat)->Some_0;
    let d = dec_digits(n);
    lemma_dec_digits(n);
    assert(is_digit(d[0]));
    assert(is_digit(d[d.len() - 1]));
    lemma_trim_fixed(d);
    assert(crate::text::unsigned_body(d) == d);
    lemma_rt_frame(t, sep, d);
    let c = t.take(sep) + "::"@ + d;
    assert(canonical_spec(parse_spec(input)->Ok_0) =~= c);
}

/// Reading a locator back from its canonical string gives the locator:
/// for every text that parses, parsing the canonical string of the result
/// gives the same result.
pub proof fn lemma_locator_round_trip(input: Seq<char>)
    requires
        parse_spec(input) is Ok,
    ensures
        parse_spec(canonical_spec(parse_spec(input)->Ok_0)) == parse_spec(input),
{
    reveal_strlit("id:");
    let t = trim(input);
    if starts_with(t, "id:"@) {
        lemma_trim_ends(input);
        let u = trim(t.skip(3));
        lemma_trim_ends(t.skip(3));
        let c = canonical_spec(parse_spec(input)->Ok_0);
        assert(c =~= "id:"@ + u);
        lemma_trim_fixed(c);
        assert(c.take(3) =~= "id:"@);
        assert(c.skip(3) =~= u);
    } else {
        let search = t.skip(find(t, "::"@)->Some_0 + 2);
        if starts_with(search, "#"@) {
            lemma_rt_custom(input);
        } else if starts_with(search, "*/"@) {
            lemma_rt_outline(input);
        } else {
            lemma_rt_line(input);
        }
    }
}


/// Whether the heading lines of `es` strictly increase, as those of a
/// document read from a text do.
pub open spec fn headings_increase(es: Seq<crate::document::OrgEntry>) -> bool {
    forall|k: int, l: int| 0 <= k < l < es.len() ==> (#[trigger] es[k]).heading_line < (#[trigger] es[l]).heading_line
}

proof fn lemma_line_scan(es: Seq<crate::document::OrgEntry>, n: int, i: int, best: Option<usize>)
    requires
        0 <= i <= es.len() <= usize::MAX,
        headings_increase(es),
        (i == 0 && best is None) || (i > 0 && best == Some((i - 1) as usize) && es[i - 1].heading_line <= n),
    ensures
        match line_scan(es, n, i, best) {
            Some(k) => 0 <= k < es.len() && es[k as int].heading_line <= n && (k + 1 < es.len() ==> es[k + 1].heading_line > n),
            None => es.len() == 0 || es[0].heading_line > n,
        },
    decreases es.len() - i,
{
    if i < es.len() && es[i].heading_line <= n {
        lemma_line_scan(es, n, i + 1, Some(i as usize));
    }
}

/// A line locator names the last entry whose heading is at or before the
/// line: its heading line is at most the line, and the next entry's heading
/// comes after it. None is found only when no heading is at or before it.
pub proof fn lemma_line_locator(f: Seq<char>, n: int, doc: OrgDocument)
    requires
        headings_increase(doc.entries@),
    ensures
        match resolve_spec(LocatorView::LineRef(f, n), doc) {
            Some(k) => 0 <= k < doc.entries@.len() && doc.entries@[k as int].heading_line <= n && (k + 1 < doc.entries@.len()
                ==> doc.entries@[k + 1].heading_line > n),
            None => doc.entries@.len() == 0 || doc.entries@[0].heading_line > n,
        },
{
    assert(doc.entries@.len() == doc.entries.len());
    lemma_line_scan(doc.entries@, n, 0, None);
}

/// A line locator naming the heading line of an entry resolves to that
/// entry.
pub proof fn lemma_line_locator_heading(f: Seq<char>, doc: OrgDocument, k: int)
    requires
        headings_increase(doc.entries@),
        0 <= k < doc.entries@.len(),
    ensures
        resolve_spec(LocatorView::LineRef(f, doc.entries@[k].heading_line as int), doc) == Some(k as usize),
{
    let es = doc.entries@;
    let n = es[k].heading_line as int;
    lemma_line_locator(f, n, doc);
    match resolve_spec(LocatorView::LineRef(f, n), doc) {
        Some(j) => {
            if (j as int) < k {
                assert(es[j + 1].heading_line <= es[k].heading_line);
            } else if (j as int) > k {
                assert(es[k].heading_line < es[j as int].heading_line);
            }
        },
        None => {
            if k > 0 {
                assert(es[0].heading_line < es[k].heading_line);
            }
        },
    }
}

/// The headings of a document read from a text come in increasing line
/// order.
pub proof fn lemma_fit_headings_increase(doc: OrgDocument, t: Seq<char>)
    requires
        crate::document::lines_fit(doc, t),
    ensures
        headings_increase(doc.entries@),
{
    reveal(crate::document::lines_fit);
}

} // verus!
