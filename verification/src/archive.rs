//! Archiving done entries: each done entry, with its subtree, is taken out of
//! the file and written to an archive location with the properties
//! `:ARCHIVE_TIME:`, `:ARCHIVE_FILE:` and `:ARCHIVE_OLPATH:`.
use vstd::prelude::*;
use crate::document::{
    dedup, last_smaller, lemma_lines_fit, lines_fit, tags_along, titles_path, tree_wf, OrgDocument, OrgEntry, lemma_parent_before,
};
use crate::cache::{next_peer, subtree_end, subtree_end_line};
use crate::lines::{line_ranges, line_spans};
use crate::rules::heading::{is_one_of, strings_view};
use crate::source::SourceFile;
use crate::text::{
    eq_ignore_case, eq_ignore_case_str, find, find_str, push_all, push_str, starts_with, str_chars, string_from,
    string_of, trim, trim_end, trim_range,
};

verus! {

// ---------------------------------------------------------------------------
// Paths
// ---------------------------------------------------------------------------
/// What `Path::parent` gives for the path `p`.
pub uninterp spec fn path_parent(p: Seq<char>) -> Option<Seq<char>>;

/// What `Path::join` gives for `base` and `part`.
pub uninterp spec fn path_join(base: Seq<char>, part: Seq<char>) -> Seq<char>;

/// What `Path::file_stem` gives for `p`.
pub uninterp spec fn path_file_stem(p: Seq<char>) -> Option<Seq<char>>;

/// The file stem of `p`, empty when it has none.
pub open spec fn stem_or_empty(p: Seq<char>) -> Seq<char> {
    match path_file_stem(p) {
        Some(s) => s,
        None => Seq::empty(),
    }
}

/// Calls `Path::parent` on `p`; the result is `path_parent(p)`.
#[verifier::external_body]
pub(crate) fn parent_of(p: &str) -> (r: Option<String>)
    ensures
        match r {
            Some(q) => path_parent(p@) == Some(q@),
            None => path_parent(p@) is None,
        },
{
    match std::path::Path::new(p).parent() {
        Some(q) => Some(q.to_string_lossy().into_owned()),
        None => None,
    }
}

/// Calls `Path::join`; the result is `path_join(base, part)`.
#[verifier::external_body]
pub(crate) fn join_path(base: &str, part: &str) -> (r: String)
    ensures
        r@ == path_join(base@, part@),
{
    std::path::Path::new(base).join(part).to_string_lossy().into_owned()
}

/// Calls `Path::file_stem`; the result is `path_file_stem(p)`. A stem of a
/// path made from a `str` is valid UTF-8, so the lossy conversion keeps it.
#[verifier::external_body]
pub(crate) fn file_stem_of(p: &str) -> (r: Option<String>)
    ensures
        match r {
            Some(q) => path_file_stem(p@) == Some(q@),
            None => path_file_stem(p@) is None,
        },
{
    std::path::Path::new(p).file_stem().map(|s| s.to_string_lossy().into_owned())
}

// ---------------------------------------------------------------------------
// Targets
// ---------------------------------------------------------------------------
/// Where archived entries go.
#[derive(Debug, Clone)]
pub struct ArchiveTarget {
    /// The archive file; `None` for the file itself.
    pub file: Option<String>,
    /// The heading under which archived entries go, such as `* Archived`.
    pub heading: Option<String>,
}

pub open spec fn opt_view(o: Option<String>) -> Option<Seq<char>> {
    match o {
        Some(s) => Some(s@),
        None => None,
    }
}

/// The directory of the source file, `.` when it has none.
pub open spec fn base_dir(src: Seq<char>) -> Seq<char> {
    match path_parent(src) {
        Some(p) => p,
        None => "."@,
    }
}

/// The target that `FILE::HEADING`, `FILE` or nothing names, relative to the
/// directory of the source file `src`.
pub open spec fn archive_target_spec(target: Seq<char>, src: Seq<char>) -> (Option<Seq<char>>, Option<Seq<char>>) {
    let base = base_dir(src);
    match find(target, "::"@) {
        Some(pos) => {
            let f = trim(target.take(pos));
            let h = trim(target.skip(pos + 2));
            (
                if f.len() == 0 {
                    None
                } else {
                    Some(path_join(base, f))
                },
                if h.len() == 0 {
                    None
                } else {
                    Some(h)
                },
            )
        },
        None => if trim(target).len() == 0 {
            (Some(path_join(base, stem_or_empty(src) + "_archive.org"@)), Some("* Archived"@))
        } else {
            (Some(path_join(base, trim(target))), None)
        },
    }
}

/// Parses an archive target such as `archive.org::* Archived`; an empty
/// target names `{stem}_archive.org` under `* Archived`.
pub fn parse_archive_target(target: &str, source_path: &str) -> (r: ArchiveTarget)
    ensures
        (opt_view(r.file), opt_view(r.heading)) == archive_target_spec(target@, source_path@),
{
    let base = match parent_of(source_path) {
        Some(p) => p,
        None => ".".to_owned(),
    };
    let t = str_chars(target);
    let s = t.as_slice();
    assert(s@.subrange(0, s@.len() as int) =~= s@);
    match find_str(s, 0, s.len(), "::") {
        Some(pos) => {
            proof {
                reveal_strlit("::");
            }
            assert(s@.take(pos as int) =~= s@.subrange(0, pos as int));
            assert(s@.skip(pos + 2) =~= s@.subrange(pos + 2, s@.len() as int));
            let (fa, fb) = trim_range(s, 0, pos);
            let (ha, hb) = trim_range(s, pos + 2, s.len());
            let file = if fa == fb {
                None
            } else {
                let f = string_of(s, fa, fb);
                Some(join_path(base.as_str(), f.as_str()))
            };
            let heading = if ha == hb {
                None
            } else {
                Some(string_of(s, ha, hb))
            };
            ArchiveTarget { file, heading }
        },
        None => {
            let (a, b) = trim_range(s, 0, s.len());
            if a == b {
                let mut name: Vec<char> = match file_stem_of(source_path) {
                    Some(stem) => str_chars(stem.as_str()),
                    None => Vec::new(),
                };
                push_str(&mut name, "_archive.org");
                let n = string_from(name.as_slice());
                ArchiveTarget { file: Some(join_path(base.as_str(), n.as_str())), heading: Some("* Archived".to_owned()) }
            } else {
                let f = string_of(s, a, b);
                ArchiveTarget { file: Some(join_path(base.as_str(), f.as_str())), heading: None }
            }
        },
    }
}

// ---------------------------------------------------------------------------
// Finding the entries to archive
// ---------------------------------------------------------------------------
/// An entry taken out for the archive.
#[derive(Debug)]
pub struct ArchiveEntry {
    /// The entry's title.
    pub title: String,
    /// The text of the entry's subtree, with the archive properties.
    pub content: String,
    /// The file it comes from.
    pub source_file: String,
    /// Its outline path, titles joined by `/`.
    pub outline_path: String,
    /// Its heading line, from 1.
    pub start_line: usize,
    /// The line where its subtree ends, from 1, exclusive.
    pub end_line: usize,
}

pub struct ArchiveView {
    pub title: Seq<char>,
    pub content: Seq<char>,
    pub source_file: Seq<char>,
    pub outline_path: Seq<char>,
    pub start_line: int,
    pub end_line: int,
}

pub open spec fn archive_view(a: ArchiveEntry) -> ArchiveView {
    ArchiveView {
        title: a.title@,
        content: a.content@,
        source_file: a.source_file@,
        outline_path: a.outline_path@,
        start_line: a.start_line as int,
        end_line: a.end_line as int,
    }
}

pub open spec fn archives_view(v: Seq<ArchiveEntry>) -> Seq<ArchiveView> {
    v.map_values(|a: ArchiveEntry| archive_view(a))
}

/// Line `k` of `t`, with its carriage return if it has one.
pub open spec fn raw_at(t: Seq<char>, spans: Seq<(int, int)>, k: int) -> Seq<char> {
    t.subrange(spans[k].0, spans[k].1)
}

/// Whether a line is a planning line.
pub open spec fn is_planning(l: Seq<char>) -> bool {
    let x = trim(l);
    starts_with(x, "SCHEDULED:"@) || starts_with(x, "DEADLINE:"@) || starts_with(x, "CLOSED:"@)
}

/// Lines `a..b`, each followed by a newline.
pub open spec fn lines_nl(t: Seq<char>, spans: Seq<(int, int)>, a: int, b: int) -> Seq<char>
    decreases b - a,
{
    if b <= a {
        Seq::empty()
    } else {
        lines_nl(t, spans, a, b - 1) + raw_at(t, spans, b - 1) + "\n"@
    }
}

/// Texts joined by `/`.
pub open spec fn join_slash(ts: Seq<Seq<char>>) -> Seq<char>
    decreases ts.len(),
{
    if ts.len() == 0 {
        Seq::empty()
    } else if ts.len() == 1 {
        ts[0]
    } else {
        join_slash(ts.drop_last()) + "/"@ + ts.last()
    }
}

/// The archive properties.
pub open spec fn archive_meta(now: Seq<char>, file: Seq<char>, olpath: Seq<char>) -> Seq<char> {
    ":ARCHIVE_TIME: "@ + now + "\n"@ + ":ARCHIVE_FILE: "@ + file + "\n"@ + ":ARCHIVE_OLPATH: "@ + olpath + "\n"@
}

/// The archived text of the subtree on lines `s..e` (0-based, `e` exclusive):
/// the heading, the planning line if there is one, then the property drawer
/// with the archive properties added first (a new drawer when there is none),
/// then the rest.
pub open spec fn archived_text(
    t: Seq<char>,
    spans: Seq<(int, int)>,
    s: int,
    e: int,
    now: Seq<char>,
    file: Seq<char>,
    olpath: Seq<char>,
) -> Seq<char> {
    let head = raw_at(t, spans, s) + "\n"@;
    let planned = s + 1 < e && is_planning(raw_at(t, spans, s + 1));
    let plan = if planned {
        raw_at(t, spans, s + 1) + "\n"@
    } else {
        Seq::empty()
    };
    let bs = if planned {
        s + 2
    } else {
        s + 1
    };
    if bs < e && eq_ignore_case(trim(raw_at(t, spans, bs)), ":PROPERTIES:"@) {
        head + plan + trim_end(raw_at(t, spans, bs)) + "\n"@ + archive_meta(now, file, olpath) + lines_nl(
            t,
            spans,
            bs + 1,
            e,
        )
    } else {
        head + plan + ":PROPERTIES:\n"@ + archive_meta(now, file, olpath) + ":END:\n"@ + lines_nl(t, spans, bs, e)
    }
}

/// Whether entry `a` is a proper ancestor of entry `i`.
pub open spec fn is_desc(es: Seq<OrgEntry>, i: int, a: int) -> bool
    decreases i,
{
    if i < 0 || i >= es.len() {
        false
    } else {
        match es[i].parent {
            Some(p) => if p < i {
                p == a || is_desc(es, p as int, a)
            } else {
                false
            },
            None => false,
        }
    }
}

/// Whether `inh` holds `ft` in any ASCII case.
pub open spec fn has_tag_ci(inh: Seq<Seq<char>>, ft: Seq<char>) -> bool {
    exists|j: int| 0 <= j < inh.len() && eq_ignore_case(#[trigger] inh[j], ft)
}

/// Whether every filter tag is among the inherited tags.
pub open spec fn tags_ok(inh: Seq<Seq<char>>, filter: Seq<Seq<char>>) -> bool {
    forall|i: int| 0 <= i < filter.len() ==> has_tag_ci(inh, #[trigger] filter[i])
}

pub open spec fn entry_done(doc: OrgDocument, e: OrgEntry) -> bool {
    e.keyword matches Some(kw) && is_one_of(strings_view(doc.todo_keywords.done@), kw@)
}

/// The archived form of entry `idx`: its whole subtree, from its heading
/// line up to where the content of its last descendant ends.
pub open spec fn archived_entry(t: Seq<char>, doc: OrgDocument, idx: int, now: Seq<char>) -> ArchiveView {
    let es = doc.entries@;
    let spans = line_spans(t);
    let olpath = join_slash(titles_path(es, idx));
    ArchiveView {
        title: es[idx].title@,
        content: archived_text(
            t,
            spans,
            es[idx].heading_line - 1,
            subtree_end(doc, idx) - 1,
            now,
            doc.file@,
            olpath,
        ),
        source_file: doc.file@,
        outline_path: olpath,
        start_line: es[idx].heading_line as int,
        end_line: subtree_end(doc, idx),
    }
}

/// The entries to archive from entry `idx` on: done entries whose inherited
/// tags hold the filter tags, skipping the descendants of the last entry
/// archived (`skip`), which go with it.
pub open spec fn archivable_from(
    t: Seq<char>,
    doc: OrgDocument,
    filter: Seq<Seq<char>>,
    now: Seq<char>,
    idx: int,
    skip: Option<int>,
) -> Seq<ArchiveView>
    decreases doc.entries@.len() - idx,
{
    let es = doc.entries@;
    if idx < 0 || idx >= es.len() {
        Seq::empty()
    } else if skip is Some && is_desc(es, idx, skip->0) {
        archivable_from(t, doc, filter, now, idx + 1, skip)
    } else if !entry_done(doc, es[idx]) {
        archivable_from(t, doc, filter, now, idx + 1, None)
    } else if filter.len() > 0 && !tags_ok(dedup(tags_along(es, idx) + strings_view(doc.filetags@)), filter) {
        archivable_from(t, doc, filter, now, idx + 1, None)
    } else {
        seq![archived_entry(t, doc, idx, now)] + archivable_from(t, doc, filter, now, idx + 1, Some(idx))
    }
}

/// The entries to archive, stamped with `now`.
pub open spec fn archivable(t: Seq<char>, doc: OrgDocument, filter: Seq<Seq<char>>, now: Seq<char>) -> Seq<ArchiveView> {
    archivable_from(t, doc, filter, now, 0, None)
}

fn is_descendant(doc: &OrgDocument, idx: usize, ancestor: usize) -> (b: bool)
    requires
        tree_wf(doc.entries@),
        idx < doc.entries@.len(),
    ensures
        b == is_desc(doc.entries@, idx as int, ancestor as int),
{
    let ghost es = doc.entries@;
    let _n = doc.entries.len();
    let mut i = idx;
    loop
        invariant
            es == doc.entries@,
            es.len() <= usize::MAX,
            tree_wf(es),
            i < es.len(),
            is_desc(es, idx as int, ancestor as int) == is_desc(es, i as int, ancestor as int),
        decreases i,
    {
        proof {
            lemma_parent_before(es, i as int);
        }
        match doc.entries[i].parent {
            Some(p) => {
                if p == ancestor {
                    return true;
                }
                i = p;
            },
            None => {
                return false;
            },
        }
    }
}

fn line_is_planning(s: &[char], lo: usize, hi: usize) -> (b: bool)
    requires
        lo <= hi <= s@.len(),
    ensures
        b == is_planning(s@.subrange(lo as int, hi as int)),
{
    let (a, c) = trim_range(s, lo, hi);
    crate::text::starts_with_str(s, a, c, "SCHEDULED:") || crate::text::starts_with_str(s, a, c, "DEADLINE:")
        || crate::text::starts_with_str(s, a, c, "CLOSED:")
}

fn push_meta(v: &mut Vec<char>, now: &str, file: &str, olpath: &[char])
    ensures
        final(v)@ == old(v)@ + archive_meta(now@, file@, olpath@),
{
    push_str(v, ":ARCHIVE_TIME: ");
    push_str(v, now);
    push_str(v, "\n");
    push_str(v, ":ARCHIVE_FILE: ");
    push_str(v, file);
    push_str(v, "\n");
    push_str(v, ":ARCHIVE_OLPATH: ");
    push_all(v, olpath);
    push_str(v, "\n");
    assert(final(v)@ =~= old(v)@ + archive_meta(now@, file@, olpath@));
}

fn push_lines_nl(v: &mut Vec<char>, s: &[char], lines: &Vec<(usize, usize)>, a: usize, b: usize)
    requires
        a <= b <= lines@.len() == line_spans(s@).len(),
        forall|j: int| 0 <= j < lines@.len() ==> (#[trigger] lines@[j]).0 as int == line_spans(s@)[j].0 && lines@[j].1 as int
            == line_spans(s@)[j].1,
        forall|j: int| 0 <= j < lines@.len() ==> (#[trigger] lines@[j]).0 <= lines@[j].1 <= s@.len(),
    ensures
        final(v)@ == old(v)@ + lines_nl(s@, line_spans(s@), a as int, b as int),
{
    let ghost start = v@;
    let ghost spans = line_spans(s@);
    let mut k = a;
    assert(start + lines_nl(s@, spans, a as int, a as int) =~= start);
    while k < b
        invariant
            a <= k <= b <= lines@.len() == spans.len(),
            spans == line_spans(s@),
            forall|j: int| 0 <= j < lines@.len() ==> (#[trigger] lines@[j]).0 as int == spans[j].0 && lines@[j].1 as int == spans[j].1,
            forall|j: int| 0 <= j < lines@.len() ==> (#[trigger] lines@[j]).0 <= lines@[j].1 <= s@.len(),
            v@ == start + lines_nl(s@, spans, a as int, k as int),
        decreases b - k,
    {
        let (la, le) = lines[k];
        push_all(v, &s[la..le]);
        push_str(v, "\n");
        assert(v@ =~= start + lines_nl(s@, spans, a as int, k + 1));
        k += 1;
    }
}

fn join_with_slash(parts: &Vec<&str>) -> (r: Vec<char>)
    ensures
        r@ == join_slash(parts@.map_values(|x: &str| x@)),
{
    let ghost pv = parts@.map_values(|x: &str| x@);
    let mut r: Vec<char> = Vec::new();
    let mut i: usize = 0;
    assert(pv.take(0) =~= Seq::<Seq<char>>::empty());
    while i < parts.len()
        invariant
            i <= parts@.len(),
            pv == parts@.map_values(|x: &str| x@),
            r@ == join_slash(pv.take(i as int)),
        decreases parts.len() - i,
    {
        assert(pv.take(i + 1).drop_last() =~= pv.take(i as int));
        assert(pv.take(i + 1).last() == parts@[i as int]@);
        if i > 0 {
            push_str(&mut r, "/");
        }
        push_str(&mut r, parts[i]);
        proof {
            if i == 0 {
                assert(pv.take(1) =~= seq![parts@[0]@]);
            }
        }
        assert(r@ =~= join_slash(pv.take(i + 1)));
        i += 1;
    }
    assert(pv.take(parts@.len() as int) =~= pv);
    r
}

/// The archived text of the subtree on lines `s0..e` (0-based).
fn archived_content(
    s: &[char],
    lines: &Vec<(usize, usize)>,
    s0: usize,
    e: usize,
    now: &str,
    file: &str,
    olpath: &[char],
) -> (r: Vec<char>)
    requires
        s0 < e <= lines@.len() == line_spans(s@).len(),
        forall|j: int| 0 <= j < lines@.len() ==> (#[trigger] lines@[j]).0 as int == line_spans(s@)[j].0 && lines@[j].1 as int
            == line_spans(s@)[j].1,
        forall|j: int| 0 <= j < lines@.len() ==> (#[trigger] lines@[j]).0 <= lines@[j].1 <= s@.len(),
    ensures
        r@ == archived_text(s@, line_spans(s@), s0 as int, e as int, now@, file@, olpath@),
{
    let ghost spans = line_spans(s@);
    let mut v: Vec<char> = Vec::new();
    let (ha, he) = lines[s0];
    push_all(&mut v, &s[ha..he]);
    push_str(&mut v, "\n");
    let ghost head = v@;
    let mut bs = s0 + 1;
    let planned = if bs < e {
        let (pa, pe) = lines[bs];
        line_is_planning(s, pa, pe)
    } else {
        false
    };
    if planned {
        let (pa, pe) = lines[bs];
        push_all(&mut v, &s[pa..pe]);
        push_str(&mut v, "\n");
        bs += 1;
    }
    let ghost planpart = v@.skip(head.len() as int);
    assert(v@ =~= head + planpart);
    let drawer = if bs < e {
        let (da, de) = lines[bs];
        let (ta, tb) = trim_range(s, da, de);
        eq_ignore_case_str(s, ta, tb, ":PROPERTIES:")
    } else {
        false
    };
    if drawer {
        let (da, de) = lines[bs];
        let re = crate::text::rskip_ws(s, da, de);
        push_all(&mut v, &s[da..re]);
        push_str(&mut v, "\n");
        push_meta(&mut v, now, file, olpath);
        push_lines_nl(&mut v, s, lines, bs + 1, e);
    } else {
        push_str(&mut v, ":PROPERTIES:\n");
        push_meta(&mut v, now, file, olpath);
        push_str(&mut v, ":END:\n");
        push_lines_nl(&mut v, s, lines, bs, e);
    }
    assert(v@ =~= archived_text(s@, spans, s0 as int, e as int, now@, file@, olpath@));
    v
}

fn tags_match(inh: &Vec<&str>, filter: &[String]) -> (b: bool)
    ensures
        b == tags_ok(inh@.map_values(|x: &str| x@), filter@.map_values(|x: String| x@)),
{
    let ghost iv = inh@.map_values(|x: &str| x@);
    let ghost fv = filter@.map_values(|x: String| x@);
    let mut i: usize = 0;
    while i < filter.len()
        invariant
            i <= filter@.len(),
            iv == inh@.map_values(|x: &str| x@),
            fv == filter@.map_values(|x: String| x@),
            forall|k: int| 0 <= k < i ==> has_tag_ci(iv, #[trigger] fv[k]),
        decreases filter.len() - i,
    {
        let fc = str_chars(filter[i].as_str());
        let mut found = false;
        let mut j: usize = 0;
        while j < inh.len()
            invariant
                j <= inh@.len(),
                iv == inh@.map_values(|x: &str| x@),
                fc@ == fv[i as int],
                found ==> has_tag_ci(iv, fv[i as int]),
                !found ==> forall|k: int| 0 <= k < j ==> !eq_ignore_case(#[trigger] iv[k], fv[i as int]),
            decreases inh.len() - j,
        {
            let tc = str_chars(inh[j]);
            assert(tc@.subrange(0, tc@.len() as int) =~= tc@);
            if crate::text::eq_ignore_case_at(tc.as_slice(), 0, tc.len(), fc.as_slice()) {
                assert(iv[j as int] == tc@);
                found = true;
            } else {
                assert(iv[j as int] == tc@);
            }
            j += 1;
        }
        if !found {
            return false;
        }
        i += 1;
    }
    true
}

/// The done entries of `doc` to archive, each with its subtree, stamped with
/// the archive time `now`. With `filter_tags`, an entry must inherit each of
/// them (in any ASCII case). The descendants of an archived entry go with it.
pub fn find_archivable_entries_at(source: &SourceFile, doc: &OrgDocument, filter_tags: &[String], now: &str) -> (r: Vec<
    ArchiveEntry,
>)
    requires
        lines_fit(*doc, source.text()),
    ensures
        archives_view(r@) == archivable_from(
            source.text(),
            *doc,
            filter_tags@.map_values(|x: String| x@),
            now@,
            0,
            None,
        ),
{
    let s = source.chars();
    let lines = line_ranges(s);
    let ghost t = s@;
    let ghost es = doc.entries@;
    let ghost fv = filter_tags@.map_values(|x: String| x@);
    let n = doc.entries.len();
    proof {
        if n > 0 {
            lemma_lines_fit(*doc, t, 0);
        } else {
            reveal(lines_fit);
        }
    }
    let mut out: Vec<ArchiveEntry> = Vec::new();
    let mut skip: Option<usize> = None;
    let mut idx: usize = 0;
    assert(archives_view(out@) + archivable_from(t, *doc, fv, now@, 0, None) =~= archivable_from(
        t,
        *doc,
        fv,
        now@,
        0,
        None,
    ));
    while idx < n
        invariant
            idx <= n == es.len(),
            es == doc.entries@,
            t == s@,
            t == source.text(),
            lines_fit(*doc, t),
            tree_wf(es),
            fv == filter_tags@.map_values(|x: String| x@),
            lines@.len() == line_spans(t).len(),
            forall|j: int| 0 <= j < lines@.len() ==> (#[trigger] lines@[j]).0 as int == line_spans(t)[j].0 && lines@[j].1 as int
                == line_spans(t)[j].1,
            forall|j: int| 0 <= j < lines@.len() ==> (#[trigger] lines@[j]).0 <= lines@[j].1 <= s@.len(),
            skip matches Some(p) ==> p < n,
            archives_view(out@) + archivable_from(
                t,
                *doc,
                fv,
                now@,
                idx as int,
                match skip {
                    Some(p) => Some(p as int),
                    None => None,
                },
            ) == archivable_from(t, *doc, fv, now@, 0, None),
        decreases n - idx,
    {
        let ghost sk = match skip {
            Some(p) => Some(p as int),
            None => None,
        };
        match skip {
            Some(p) => {
                if is_descendant(doc, idx, p) {
                    idx += 1;
                    continue;
                }
            },
            None => {},
        }
        skip = None;
        let entry = &doc.entries[idx];
        let done = match &entry.keyword {
            Some(kw) => doc.todo_keywords.is_done(kw.as_str()),
            None => false,
        };
        if !done {
            idx += 1;
            continue;
        }
        if filter_tags.len() > 0 {
            let inherited = doc.inherited_tags(idx);
            if !tags_match(&inherited, filter_tags) {
                idx += 1;
                continue;
            }
        }
        let end = subtree_end_line(doc, idx);
        proof {
            lemma_lines_fit(*doc, t, idx as int);
            lemma_subtree_end_bounds(*doc, t, idx as int);
        }
        assert(1 <= entry.heading_line < end <= lines@.len() + 1);
        let path = doc.outline_path(idx);
        let olpath = join_with_slash(&path);
        let content = archived_content(
            s,
            &lines,
            entry.heading_line - 1,
            end - 1,
            now,
            doc.file.as_str(),
            olpath.as_slice(),
        );
        let a = ArchiveEntry {
            title: entry.title.clone(),
            content: string_from(content.as_slice()),
            source_file: doc.file.clone(),
            outline_path: string_from(olpath.as_slice()),
            start_line: entry.heading_line,
            end_line: end,
        };
        let ghost before = archives_view(out@);
        assert(archive_view(a) == archived_entry(t, *doc, idx as int, now@));
        out.push(a);
        proof {
            assert(archives_view(out@) =~= before.push(archived_entry(t, *doc, idx as int, now@)));
            assert(archives_view(out@) + archivable_from(t, *doc, fv, now@, idx + 1, Some(idx as int)) =~= before
                + archivable_from(t, *doc, fv, now@, idx as int, sk));
        }
        skip = Some(idx);
        idx += 1;
    }
    out
}

/// The done entries of `doc` to archive, stamped with the current time; as
/// [`find_archivable_entries_at`] with the time stamp of some instant.
pub fn find_archivable_entries(source: &SourceFile, doc: &OrgDocument, filter_tags: &[String]) -> (r: Vec<ArchiveEntry>)
    requires
        lines_fit(*doc, source.text()),
    ensures
        exists|secs: int|
            0 <= secs <= 0x7fff_ffff_ffff_ffff && archives_view(r@) == #[trigger] archivable(
                source.text(),
                *doc,
                strings_view(filter_tags@),
                crate::state::timestamp_spec(secs),
            ),
{
    let now = crate::state::now_timestamp();
    let r = find_archivable_entries_at(source, doc, filter_tags, now.as_str());
    let ghost secs = choose|secs: int| 0 <= secs <= 0x7fff_ffff_ffff_ffff && now@ == crate::state::timestamp_spec(secs);
    assert(archives_view(r@) == archivable(source.text(), *doc, strings_view(filter_tags@), crate::state::timestamp_spec(secs)));
    r
}

// ---------------------------------------------------------------------------
// Building the archive
// ---------------------------------------------------------------------------
/// The result of archiving.
pub struct ArchiveResult {
    /// The source with the archived entries taken out.
    pub source_content: String,
    /// What to append to the archive file.
    pub archive_content: String,
    /// The archive file.
    pub archive_path: String,
    /// The number of entries archived.
    pub archived: usize,
}

/// The lines of `t`, with their carriage returns.
pub open spec fn raw_lines(t: Seq<char>) -> Seq<Seq<char>> {
    line_spans(t).map_values(|p: (int, int)| t.subrange(p.0, p.1))
}

/// `ls` without the line ranges of the entries `es`, removed from the last entry to the first.
pub open spec fn drained(ls: Seq<Seq<char>>, es: Seq<ArchiveView>) -> Seq<Seq<char>>
    decreases es.len(),
{
    if es.len() == 0 {
        ls
    } else {
        let e = es.last();
        drained(ls.take(e.start_line - 1) + ls.skip(e.end_line - 1), es.drop_last())
    }
}

/// Lines joined by newlines.
pub open spec fn join_nl(ls: Seq<Seq<char>>) -> Seq<char>
    decreases ls.len(),
{
    if ls.len() == 0 {
        Seq::empty()
    } else if ls.len() == 1 {
        ls[0]
    } else {
        join_nl(ls.drop_last()) + "\n"@ + ls.last()
    }
}

/// The archived entries' texts, each after a newline.
pub open spec fn contents_nl(es: Seq<ArchiveView>) -> Seq<char>
    decreases es.len(),
{
    if es.len() == 0 {
        Seq::empty()
    } else {
        contents_nl(es.drop_last()) + "\n"@ + es.last().content
    }
}

/// The text to append to the archive file: the target heading, then the entries.
pub open spec fn archive_text(heading: Option<Seq<char>>, es: Seq<ArchiveView>) -> Seq<char> {
    match heading {
        Some(h) => h + "\n"@ + contents_nl(es),
        None => contents_nl(es),
    }
}

/// Whether the entries' line ranges lie within `n` lines, in order and apart.
pub open spec fn ranges_ordered(es: Seq<ArchiveView>, n: int) -> bool {
    &&& forall|i: int| 0 <= i < es.len() ==> 1 <= (#[trigger] es[i]).start_line <= es[i].end_line <= n + 1
    &&& forall|i: int, j: int| 0 <= i < j < es.len() ==> (#[trigger] es[i]).end_line <= (#[trigger] es[j]).start_line
}

/// Takes the archived entries out of the source and gathers the archive
/// text; `None` when there is nothing to archive.
pub fn build_archive(
    source: &SourceFile,
    doc: &OrgDocument,
    archive_entries: &[ArchiveEntry],
    target: &ArchiveTarget,
) -> (r: Option<ArchiveResult>)
    requires
        ranges_ordered(archives_view(archive_entries@), line_spans(source.text()).len() as int),
    ensures
        r is None <==> archive_entries@.len() == 0,
        r matches Some(res) ==> {
            &&& res.source_content@ == join_nl(drained(raw_lines(source.text()), archives_view(archive_entries@)))
            &&& res.archive_content@ == archive_text(opt_view(target.heading), archives_view(archive_entries@))
            &&& res.archive_path@ == match target.file {
                Some(f) => f@,
                None => doc.file@,
            }
            &&& res.archived == archive_entries@.len()
        },
{
    if archive_entries.len() == 0 {
        return None;
    }
    let s = source.chars();
    let lines = line_ranges(s);
    let ghost t = s@;
    let ghost ev = archives_view(archive_entries@);
    let ghost ls = raw_lines(t);
    assert(crate::text::ranges_view(s@, lines@) =~= ls);
    let mut cur: Vec<(usize, usize)> = lines;
    let mut k = archive_entries.len();
    assert(ev.take(k as int) =~= ev);
    while k > 0
        invariant
            k <= archive_entries@.len(),
            ev == archives_view(archive_entries@),
            ranges_ordered(ev, ls.len() as int),
            drained(crate::text::ranges_view(s@, cur@), ev.take(k as int)) == drained(ls, ev),
            forall|i: int| 0 <= i < k ==> (#[trigger] ev[i]).end_line - 1 <= cur@.len(),
            forall|j: int| 0 <= j < cur@.len() ==> (#[trigger] cur@[j]).0 <= cur@[j].1 <= s@.len(),
        decreases k,
    {
        let a = archive_entries[k - 1].start_line - 1;
        let b = archive_entries[k - 1].end_line - 1;
        assert(ev[k - 1] == archive_view(archive_entries@[k - 1]));
        let mut next: Vec<(usize, usize)> = Vec::new();
        let mut i: usize = 0;
        while i < a
            invariant
                i <= a <= b <= cur@.len(),
                next@ == cur@.take(i as int),
            decreases a - i,
        {
            next.push(cur[i]);
            i += 1;
            assert(next@ =~= cur@.take(i as int));
        }
        let mut j = b;
        while j < cur.len()
            invariant
                a <= b <= j <= cur@.len(),
                next@ == cur@.take(a as int) + cur@.subrange(b as int, j as int),
            decreases cur.len() - j,
        {
            next.push(cur[j]);
            j += 1;
            assert(next@ =~= cur@.take(a as int) + cur@.subrange(b as int, j as int));
        }
        proof {
            let cv = crate::text::ranges_view(s@, cur@);
            assert(cur@.subrange(b as int, cur@.len() as int) =~= cur@.skip(b as int));
            assert(crate::text::ranges_view(s@, next@) =~= cv.take(a as int) + cv.skip(b as int));
            assert(ev.take(k as int).last() == ev[k - 1]);
            assert(ev.take(k as int).drop_last() =~= ev.take(k - 1));
            assert forall|i: int| 0 <= i < k - 1 implies (#[trigger] ev[i]).end_line - 1 <= next@.len() by {
                assert(ev[i].end_line <= ev[k - 1].start_line);
            }
        }
        cur = next;
        k -= 1;
    }
    assert(ev.take(0) =~= Seq::<ArchiveView>::empty());
    let ghost rest = crate::text::ranges_view(s@, cur@);
    let mut text: Vec<char> = Vec::new();
    let mut i: usize = 0;
    assert(rest.take(0) =~= Seq::<Seq<char>>::empty());
    while i < cur.len()
        invariant
            i <= cur@.len(),
            rest == crate::text::ranges_view(s@, cur@),
            forall|j: int| 0 <= j < cur@.len() ==> (#[trigger] cur@[j]).0 <= cur@[j].1 <= s@.len(),
            text@ == join_nl(rest.take(i as int)),
        decreases cur.len() - i,
    {
        let (la, le) = cur[i];
        assert(rest.take(i + 1).drop_last() =~= rest.take(i as int));
        assert(rest.take(i + 1).last() == s@.subrange(la as int, le as int));
        if i > 0 {
            push_str(&mut text, "\n");
        }
        push_all(&mut text, &s[la..le]);
        proof {
            if i == 0 {
                assert(rest.take(1) =~= seq![s@.subrange(la as int, le as int)]);
            }
        }
        assert(text@ =~= join_nl(rest.take(i + 1)));
        i += 1;
    }
    assert(rest.take(cur@.len() as int) =~= rest);
    let mut arch: Vec<char> = Vec::new();
    match &target.heading {
        Some(h) => {
            push_str(&mut arch, h.as_str());
            push_str(&mut arch, "\n");
        },
        None => {},
    }
    let ghost head = arch@;
    let mut q: usize = 0;
    assert(ev.take(0) =~= Seq::<ArchiveView>::empty());
    while q < archive_entries.len()
        invariant
            q <= archive_entries@.len(),
            ev == archives_view(archive_entries@),
            arch@ == head + contents_nl(ev.take(q as int)),
        decreases archive_entries.len() - q,
    {
        assert(ev.take(q + 1).drop_last() =~= ev.take(q as int));
        assert(ev.take(q + 1).last() == archive_view(archive_entries@[q as int]));
        push_str(&mut arch, "\n");
        push_str(&mut arch, archive_entries[q].content.as_str());
        assert(arch@ =~= head + contents_nl(ev.take(q + 1)));
        q += 1;
    }
    assert(ev.take(archive_entries@.len() as int) =~= ev);
    let archive_path = match &target.file {
        Some(f) => f.clone(),
        None => doc.file.clone(),
    };
    Some(
        ArchiveResult {
            source_content: string_from(text.as_slice()),
            archive_content: string_from(arch.as_slice()),
            archive_path,
            archived: archive_entries.len(),
        },
    )
}

proof fn lemma_peer_bound(d: OrgDocument, i: int, j: int)
    requires
        0 <= j <= d.entries@.len(),
    ensures
        j <= next_peer(d, i, j) <= d.entries@.len(),
        forall|m: int| j <= m < next_peer(d, i, j) ==> (#[trigger] d.entries@[m]).level > d.entries@[i].level,
    decreases d.entries@.len() - j,
{
    if j < d.entries@.len() && d.entries@[j].level > d.entries@[i].level {
        lemma_peer_bound(d, i, j + 1);
    }
}

proof fn lemma_last_smaller_from(es: Seq<OrgEntry>, lvl: usize, s: int, j: int)
    requires
        0 <= s < j <= es.len(),
        j <= usize::MAX,
        es[s].level < lvl,
    ensures
        last_smaller(es, lvl, j) matches Some(p) && s <= p < j && es[p as int].level < lvl,
    decreases j,
{
    if es[j - 1].level >= lvl {
        lemma_last_smaller_from(es, lvl, s, j - 1);
    }
}

/// The entries after `s` and before the next one at its level or above are
/// its descendants.
proof fn lemma_desc_until_peer(d: OrgDocument, s: int, j: int)
    requires
        tree_wf(d.entries@),
        0 <= s < j < next_peer(d, s, s + 1),
        next_peer(d, s, s + 1) <= d.entries@.len(),
    ensures
        is_desc(d.entries@, j, s),
    decreases j,
{
    let es = d.entries@;
    assert(es.len() == d.entries.len());
    lemma_peer_bound(d, s, s + 1);
    assert(es[j].level > es[s].level);
    assert(es[j].parent == last_smaller(es, es[j].level, j));
    lemma_last_smaller_from(es, es[j].level, s, j);
    let p = es[j].parent->0 as int;
    if p != s {
        lemma_desc_until_peer(d, s, p);
    }
}

/// The subtree of entry `idx` ends after its heading line and at most one
/// past the last line, at the heading of the next entry at its level or above
/// where there is one.
proof fn lemma_subtree_end_bounds(d: OrgDocument, t: Seq<char>, idx: int)
    requires
        lines_fit(d, t),
        0 <= idx < d.entries@.len(),
    ensures
        d.entries@[idx].heading_line < subtree_end(d, idx) <= line_spans(t).len() + 1,
        next_peer(d, idx, idx + 1) < d.entries@.len() ==> subtree_end(d, idx) == d.entries@[next_peer(d, idx, idx + 1)].heading_line,
{
    let es = d.entries@;
    lemma_peer_bound(d, idx, idx + 1);
    let q = next_peer(d, idx, idx + 1) - 1;
    lemma_lines_fit(d, t, q);
    lemma_lines_fit(d, t, idx);
    if q > idx {
        lemma_heading_order(d, t, idx, q);
    }
}

proof fn lemma_heading_order(d: OrgDocument, t: Seq<char>, k: int, l: int)
    requires
        lines_fit(d, t),
        0 <= k < l < d.entries@.len(),
    ensures
        d.entries@[k].heading_line < d.entries@[l].heading_line,
{
    reveal(lines_fit);
}

proof fn lemma_archivable_from_ordered(
    t: Seq<char>,
    doc: OrgDocument,
    filter: Seq<Seq<char>>,
    now: Seq<char>,
    idx: int,
    skip: Option<int>,
)
    requires
        lines_fit(doc, t),
        0 <= idx,
    ensures
        ranges_ordered(archivable_from(t, doc, filter, now, idx, skip), line_spans(t).len() as int),
        forall|k: int| 0 <= k < archivable_from(t, doc, filter, now, idx, skip).len() ==> idx < doc.entries@.len() && (
        #[trigger] archivable_from(t, doc, filter, now, idx, skip)[k]).start_line >= doc.entries@[idx].heading_line,
        forall|k: int| 0 <= k < archivable_from(t, doc, filter, now, idx, skip).len() ==> (skip is Some && 0 <= skip->0 < idx
            ==> (#[trigger] archivable_from(t, doc, filter, now, idx, skip)[k]).start_line >= subtree_end(doc, skip->0)),
    decreases doc.entries@.len() - idx,
{
    let es = doc.entries@;
    let n = line_spans(t).len() as int;
    let res = archivable_from(t, doc, filter, now, idx, skip);
    if idx >= es.len() {
        return;
    }
    lemma_lines_fit(doc, t, idx);
    let next_skip = if skip is Some && is_desc(es, idx, skip->0) {
        skip
    } else if !entry_done(doc, es[idx]) {
        None
    } else if filter.len() > 0 && !tags_ok(dedup(tags_along(es, idx) + strings_view(doc.filetags@)), filter) {
        None
    } else {
        Some(idx)
    };
    lemma_archivable_from_ordered(t, doc, filter, now, idx + 1, next_skip);
    let rest = archivable_from(t, doc, filter, now, idx + 1, next_skip);
    if next_skip == Some(idx) && !(skip is Some && is_desc(es, idx, skip->0)) {
        let a = archived_entry(t, doc, idx, now);
        assert(res == seq![a] + rest);
        lemma_subtree_end_bounds(doc, t, idx);
        assert forall|i: int, j: int| 0 <= i < j < res.len() implies (#[trigger] res[i]).end_line <= (#[trigger] res[j]).start_line by {
            if i == 0 {
                assert(res[j] == rest[j - 1]);
            } else {
                assert(res[i] == rest[i - 1]);
                assert(res[j] == rest[j - 1]);
            }
        }
        assert forall|k: int| 0 <= k < res.len() implies idx < es.len() && (#[trigger] res[k]).start_line >= es[idx].heading_line by {
            if k > 0 {
                assert(res[k] == rest[k - 1]);
                assert(es[idx].heading_line < es[idx + 1].heading_line);
            }
        }
    } else {
        assert(res == rest);
        assert forall|k: int| 0 <= k < res.len() implies idx < es.len() && (#[trigger] res[k]).start_line >= es[idx].heading_line by {
            assert(es[idx].heading_line < es[idx + 1].heading_line);
        }
    }
    if skip is Some {
        let sk = skip->0;
        if 0 <= sk < idx && !is_desc(es, idx, sk) {
            lemma_peer_bound(doc, sk, sk + 1);
            let p = next_peer(doc, sk, sk + 1);
            if idx < p {
                lemma_desc_until_peer(doc, sk, idx);
            }
            lemma_subtree_end_bounds(doc, t, sk);
            if p < idx {
                lemma_heading_order(doc, t, p, idx);
            }
            assert(subtree_end(doc, sk) <= es[idx].heading_line);
        }
    }
}

/// The entries that `find_archivable_entries` gives can be handed to
/// `build_archive`: their line ranges lie within the file, in order and apart.
pub proof fn lemma_archivable_ordered(t: Seq<char>, doc: OrgDocument, filter: Seq<Seq<char>>, now: Seq<char>)
    requires
        lines_fit(doc, t),
    ensures
        ranges_ordered(archivable(t, doc, filter, now), line_spans(t).len() as int),
{
    lemma_archivable_from_ordered(t, doc, filter, now, 0, None);
}


/// Whether entry `idx` of `doc` is to be archived: it is done, and its tags,
/// with those it inherits and the file's, hold every filter tag.
pub open spec fn archive_ok(doc: OrgDocument, filter: Seq<Seq<char>>, idx: int) -> bool {
    &&& entry_done(doc, doc.entries@[idx])
    &&& (filter.len() == 0 || tags_ok(dedup(tags_along(doc.entries@, idx) + strings_view(doc.filetags@)), filter))
}

/// Whether `r` is the archived form of entry `j`, an entry to be archived.
pub open spec fn from_entry(r: ArchiveView, t: Seq<char>, doc: OrgDocument, filter: Seq<Seq<char>>, now: Seq<char>, j: int) -> bool {
    &&& 0 <= j < doc.entries@.len()
    &&& archive_ok(doc, filter, j)
    &&& r == archived_entry(t, doc, j, now)
}

/// Whether `r` is the archived form of some entry to be archived.
pub open spec fn ok_item(r: ArchiveView, t: Seq<char>, doc: OrgDocument, filter: Seq<Seq<char>>, now: Seq<char>) -> bool {
    exists|j: int| #[trigger] from_entry(r, t, doc, filter, now, j)
}

/// Whether the archived form of entry `j` is among `res`.
pub open spec fn archived_in(res: Seq<ArchiveView>, t: Seq<char>, doc: OrgDocument, now: Seq<char>, j: int) -> bool {
    exists|k: int| 0 <= k < res.len() && res[k] == archived_entry(t, doc, j, now)
}

/// Whether entry `m` goes to the archive: by itself, or inside an archived
/// ancestor.
pub open spec fn covered(res: Seq<ArchiveView>, t: Seq<char>, doc: OrgDocument, now: Seq<char>, m: int) -> bool {
    ||| archived_in(res, t, doc, now, m)
    ||| exists|j: int| #[trigger] archived_in(res, t, doc, now, j) && is_desc(doc.entries@, m, j)
}

proof fn lemma_archived_in_cons(x: ArchiveView, rest: Seq<ArchiveView>, t: Seq<char>, doc: OrgDocument, now: Seq<char>, j: int)
    requires
        archived_in(rest, t, doc, now, j),
    ensures
        archived_in(seq![x] + rest, t, doc, now, j),
{
    let k = choose|k: int| 0 <= k < rest.len() && rest[k] == archived_entry(t, doc, j, now);
    assert((seq![x] + rest)[k + 1] == rest[k]);
}

proof fn lemma_same_items(res: Seq<ArchiveView>, rest: Seq<ArchiveView>, t: Seq<char>, doc: OrgDocument, filter: Seq<Seq<char>>, now: Seq<char>)
    requires
        res == rest,
        forall|k: int| 0 <= k < rest.len() ==> ok_item(#[trigger] rest[k], t, doc, filter, now),
    ensures
        forall|k: int| 0 <= k < res.len() ==> ok_item(#[trigger] res[k], t, doc, filter, now),
{
}

proof fn lemma_archivable_from_exact(t: Seq<char>, doc: OrgDocument, filter: Seq<Seq<char>>, now: Seq<char>, idx: int, skip: Option<int>)
    requires
        0 <= idx,
    ensures
        ({
            let res = archivable_from(t, doc, filter, now, idx, skip);
            &&& forall|k: int| 0 <= k < res.len() ==> ok_item(#[trigger] res[k], t, doc, filter, now)
            &&& forall|m: int| idx <= m < doc.entries@.len() && #[trigger] archive_ok(doc, filter, m) ==> covered(res, t, doc, now, m)
                || (skip matches Some(sk) && is_desc(doc.entries@, m, sk))
        }),
    decreases doc.entries@.len() - idx,
{
    let es = doc.entries@;
    let res = archivable_from(t, doc, filter, now, idx, skip);
    if idx < es.len() {
        if skip is Some && is_desc(es, idx, skip->0) {
            lemma_archivable_from_exact(t, doc, filter, now, idx + 1, skip);
            lemma_same_items(res, archivable_from(t, doc, filter, now, idx + 1, skip), t, doc, filter, now);
        } else if !entry_done(doc, es[idx]) {
            lemma_archivable_from_exact(t, doc, filter, now, idx + 1, None);
            lemma_same_items(res, archivable_from(t, doc, filter, now, idx + 1, None), t, doc, filter, now);
        } else if filter.len() > 0 && !tags_ok(dedup(tags_along(es, idx) + strings_view(doc.filetags@)), filter) {
            lemma_archivable_from_exact(t, doc, filter, now, idx + 1, None);
            lemma_same_items(res, archivable_from(t, doc, filter, now, idx + 1, None), t, doc, filter, now);
        } else {
            lemma_archivable_from_exact(t, doc, filter, now, idx + 1, Some(idx));
            let x = archived_entry(t, doc, idx, now);
            let rest = archivable_from(t, doc, filter, now, idx + 1, Some(idx));
            assert(res == seq![x] + rest);
            assert(res[0] == x);
            assert(from_entry(res[0], t, doc, filter, now, idx));
            assert(archived_in(res, t, doc, now, idx));
            assert forall|k: int| 0 <= k < res.len() implies ok_item(#[trigger] res[k], t, doc, filter, now) by {
                if k > 0 {
                    assert(res[k] == rest[k - 1]);
                    assert(ok_item(rest[k - 1], t, doc, filter, now));
                } else {
                    assert(from_entry(res[k], t, doc, filter, now, idx));
                }
            }
            assert forall|m: int| idx <= m < es.len() && #[trigger] archive_ok(doc, filter, m) implies covered(res, t, doc, now, m)
                || (skip matches Some(sk) && is_desc(es, m, sk)) by {
                if m > idx {
                    if archived_in(rest, t, doc, now, m) {
                        lemma_archived_in_cons(x, rest, t, doc, now, m);
                    } else if is_desc(es, m, idx) {
                        assert(archived_in(res, t, doc, now, idx) && is_desc(es, m, idx));
                    } else {
                        let j = choose|j: int| #[trigger] archived_in(rest, t, doc, now, j) && is_desc(es, m, j);
                        lemma_archived_in_cons(x, rest, t, doc, now, j);
                        assert(archived_in(res, t, doc, now, j) && is_desc(es, m, j));
                    }
                }
            }
        }
    }
}

/// What `find_archivable_entries` gives, in terms of the entries: each item
/// is the archived form of an entry that is done and holds the filter tags,
/// and every such entry is archived, by itself or inside an archived
/// ancestor.
pub proof fn lemma_archivable_exact(t: Seq<char>, doc: OrgDocument, filter: Seq<Seq<char>>, now: Seq<char>)
    ensures
        ({
            let res = archivable(t, doc, filter, now);
            &&& forall|k: int| 0 <= k < res.len() ==> ok_item(#[trigger] res[k], t, doc, filter, now)
            &&& forall|m: int| 0 <= m < doc.entries@.len() && #[trigger] archive_ok(doc, filter, m) ==> covered(res, t, doc, now, m)
        }),
{
    lemma_archivable_from_exact(t, doc, filter, now, 0, None);
}

} // verus!
