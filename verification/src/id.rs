//! Adding `:ID:` properties to entries that lack them.
use vstd::prelude::*;
use crate::archive::{file_stem_of, path_file_stem};
use crate::diagnostic::{Fix, Span};
use crate::document::{lemma_children_after, lemma_lines_fit, lines_fit, planning_line, OrgDocument, OrgEntry};
use crate::edna::{descendants_list, descendants_of};
use crate::formatter::apply_fixes;
use crate::lines::{fix_view, fixes_view, line_ranges, line_spans};
use crate::props::PropMap;
use crate::runner::{apply_view, chained, fsort, lemma_chained_fit, lemma_fsort_points, lemma_spliced_view, sort_fixes};
use crate::source::SourceFile;
use crate::state::{chosen, line_offset, lines_of, opt_seq, raw_line, seconds_since_epoch, system_now};
use crate::text::{
    char_is_ascii_alpha, char_is_digit, char_lower_ascii, dec_digits, eq_ignore_case, eq_ignore_case_str, is_ascii_alnum,
    lower_ascii, push_all, push_dec, push_dec_u64, push_str, str_chars, string_from, trim,
};

verus! {

// ---------------------------------------------------------------------------
// Slugs
// ---------------------------------------------------------------------------
/// The slug of `t` before a trailing hyphen is dropped: ASCII letters and
/// digits in lower case, each run of other characters after one of them
/// written as one `-`.
pub open spec fn slug_raw(t: Seq<char>) -> Seq<char>
    decreases t.len(),
{
    if t.len() == 0 {
        Seq::empty()
    } else {
        let p = t.drop_last();
        let c = t.last();
        if is_ascii_alnum(c) {
            slug_raw(p).push(lower_ascii(c))
        } else if p.len() > 0 && is_ascii_alnum(p.last()) {
            slug_raw(p).push('-')
        } else {
            slug_raw(p)
        }
    }
}

/// The URL-safe slug of a title.
pub open spec fn slug(t: Seq<char>) -> Seq<char> {
    let r = slug_raw(t);
    if r.len() > 0 && r.last() == '-' {
        r.drop_last()
    } else {
        r
    }
}

/// Turns a heading title into a URL-safe slug: lower case, every run of
/// characters other than ASCII letters and digits made one hyphen, no
/// hyphen at either end.
pub fn slugify(s: &str) -> (r: String)
    ensures
        r@ == slug(s@),
{
    let t = str_chars(s);
    let mut out: Vec<char> = Vec::new();
    let mut prev_hyphen = true;
    let mut i: usize = 0;
    assert(t@.take(0) =~= Seq::<char>::empty());
    while i < t.len()
        invariant
            i <= t@.len(),
            out@ == slug_raw(t@.take(i as int)),
            prev_hyphen == !(i > 0 && is_ascii_alnum(t@[i - 1])),
        decreases t.len() - i,
    {
        let c = t[i];
        assert(t@.take(i + 1).drop_last() =~= t@.take(i as int));
        assert(t@.take(i + 1).last() == c);
        if char_is_ascii_alpha(c) || char_is_digit(c) {
            out.push(char_lower_ascii(c));
            prev_hyphen = false;
        } else if !prev_hyphen {
            out.push('-');
            prev_hyphen = true;
        }
        i += 1;
    }
    assert(t@.take(t@.len() as int) =~= t@);
    let n = out.len();
    if n > 0 && out[n - 1] == '-' {
        out.pop();
    }
    string_from(out.as_slice())
}

/// Whether `c` may stand in a slug: a lowercase ASCII letter, a digit or `-`.
pub open spec fn slug_char(c: char) -> bool {
    ('a' <= c && c <= 'z') || ('0' <= c && c <= '9') || c == '-'
}

/// Whether `s` has the form of a slug: lowercase ASCII letters, digits and
/// single hyphens, with no hyphen at either end.
pub open spec fn slug_form(s: Seq<char>) -> bool {
    &&& forall|i: int| 0 <= i < s.len() ==> slug_char(#[trigger] s[i])
    &&& s.len() > 0 ==> s[0] != '-' && s.last() != '-'
    &&& forall|i: int| 0 <= i < s.len() - 1 ==> !(#[trigger] s[i] == '-' && s[i + 1] == '-')
}

proof fn lemma_slug_raw_form(t: Seq<char>)
    ensures
        forall|i: int| 0 <= i < slug_raw(t).len() ==> slug_char(#[trigger] slug_raw(t)[i]),
        slug_raw(t).len() > 0 ==> slug_raw(t)[0] != '-',
        forall|i: int| 0 <= i < slug_raw(t).len() - 1 ==> !(#[trigger] slug_raw(t)[i] == '-' && slug_raw(t)[i + 1] == '-'),
        t.len() > 0 && is_ascii_alnum(t.last()) ==> slug_raw(t).len() > 0 && slug_raw(t).last() != '-',
    decreases t.len(),
{
    if t.len() > 0 {
        let p = t.drop_last();
        lemma_slug_raw_form(p);
        let r = slug_raw(p);
        let c = t.last();
        let w = slug_raw(t);
        if is_ascii_alnum(c) {
            assert(w == r.push(lower_ascii(c)));
            assert(slug_char(lower_ascii(c)));
            assert forall|i: int| 0 <= i < w.len() implies slug_char(#[trigger] w[i]) by {
                if i < r.len() {
                    assert(w[i] == r[i]);
                }
            }
            assert forall|i: int| 0 <= i < w.len() - 1 implies !(#[trigger] w[i] == '-' && w[i + 1] == '-') by {
                assert(w[i] == r[i]);
                if i + 1 < r.len() {
                    assert(w[i + 1] == r[i + 1]);
                }
            }
            if r.len() > 0 {
                assert(w[0] == r[0]);
            }
        } else if p.len() > 0 && is_ascii_alnum(p.last()) {
            assert(w == r.push('-'));
            assert forall|i: int| 0 <= i < w.len() implies slug_char(#[trigger] w[i]) by {
                if i < r.len() {
                    assert(w[i] == r[i]);
                }
            }
            assert forall|i: int| 0 <= i < w.len() - 1 implies !(#[trigger] w[i] == '-' && w[i + 1] == '-') by {
                assert(w[i] == r[i]);
                if i + 1 < r.len() {
                    assert(w[i + 1] == r[i + 1]);
                } else {
                    assert(r[i] == r.last());
                }
            }
            assert(w[0] == r[0]);
        }
    }
}

proof fn lemma_slug_raw_fixed(s: Seq<char>)
    requires
        forall|i: int| 0 <= i < s.len() ==> slug_char(#[trigger] s[i]),
        s.len() > 0 ==> s[0] != '-',
        forall|i: int| 0 <= i < s.len() - 1 ==> !(#[trigger] s[i] == '-' && s[i + 1] == '-'),
    ensures
        slug_raw(s) == s,
    decreases s.len(),
{
    if s.len() > 0 {
        let p = s.drop_last();
        assert forall|i: int| 0 <= i < p.len() implies slug_char(#[trigger] p[i]) by {
            assert(p[i] == s[i]);
        }
        assert forall|i: int| 0 <= i < p.len() - 1 implies !(#[trigger] p[i] == '-' && p[i + 1] == '-') by {
            assert(p[i] == s[i] && p[i + 1] == s[i + 1]);
        }
        if p.len() > 0 {
            assert(p[0] == s[0]);
        }
        lemma_slug_raw_fixed(p);
        let c = s.last();
        assert(slug_char(s[s.len() - 1]));
        if c == '-' {
            assert(p.len() > 0);
            assert(p.last() == s[s.len() - 2]);
            assert(slug_char(s[s.len() - 2]));
            assert(!(s[s.len() - 2] == '-' && s[s.len() - 1] == '-'));
        }
        assert(p.push(c) =~= s);
    }
}

/// Slugging a slug gives it back unchanged.
pub proof fn lemma_slug_idempotent(t: Seq<char>)
    ensures
        slug(slug(t)) == slug(t),
{
    lemma_slug_form(t);
    let s = slug(t);
    lemma_slug_raw_fixed(s);
}

/// The ASCII letters and digits of `t`, in order and in lower case.
pub open spec fn alnum_lower(t: Seq<char>) -> Seq<char>
    decreases t.len(),
{
    if t.len() == 0 {
        Seq::empty()
    } else if is_ascii_alnum(t.last()) {
        alnum_lower(t.drop_last()).push(lower_ascii(t.last()))
    } else {
        alnum_lower(t.drop_last())
    }
}

/// `s` without its hyphens.
pub open spec fn drop_hyphens(s: Seq<char>) -> Seq<char>
    decreases s.len(),
{
    if s.len() == 0 {
        Seq::empty()
    } else if s.last() == '-' {
        drop_hyphens(s.drop_last())
    } else {
        drop_hyphens(s.drop_last()).push(s.last())
    }
}

proof fn lemma_slug_raw_letters(t: Seq<char>)
    ensures
        drop_hyphens(slug_raw(t)) == alnum_lower(t),
    decreases t.len(),
{
    if t.len() > 0 {
        let p = t.drop_last();
        lemma_slug_raw_letters(p);
        let c = t.last();
        if is_ascii_alnum(c) {
            assert(slug_char(lower_ascii(c)));
            assert(lower_ascii(c) != '-');
            assert(slug_raw(t).drop_last() =~= slug_raw(p));
        } else if p.len() > 0 && is_ascii_alnum(p.last()) {
            assert(slug_raw(t).drop_last() =~= slug_raw(p));
        }
    }
}

/// The slug of a title keeps every ASCII letter and digit of it, in order
/// and in lower case, and nothing else but hyphens.
pub proof fn lemma_slug_letters(t: Seq<char>)
    ensures
        drop_hyphens(slug(t)) == alnum_lower(t),
{
    lemma_slug_raw_letters(t);
    let r = slug_raw(t);
    if r.len() > 0 && r.last() == '-' {
        assert(drop_hyphens(r) == drop_hyphens(r.drop_last()));
    }
}

/// A slug has the form of one: lowercase ASCII letters, digits and single
/// hyphens, with no hyphen at either end.
pub proof fn lemma_slug_form(t: Seq<char>)
    ensures
        slug_form(slug(t)),
{
    lemma_slug_raw_form(t);
    let r = slug_raw(t);
    let s = slug(t);
    if r.len() > 0 && r.last() == '-' {
        assert(s == r.drop_last());
        assert forall|i: int| 0 <= i < s.len() implies slug_char(#[trigger] s[i]) by {
            assert(s[i] == r[i]);
        }
        assert forall|i: int| 0 <= i < s.len() - 1 implies !(#[trigger] s[i] == '-' && s[i + 1] == '-') by {
            assert(s[i] == r[i] && s[i + 1] == r[i + 1]);
        }
        if s.len() > 0 {
            assert(s[0] == r[0]);
            assert(s.last() == r[r.len() - 2]);
            assert(!(r[r.len() - 2] == '-' && r[r.len() - 1] == '-'));
        }
    }
}

// ---------------------------------------------------------------------------
// Template IDs
// ---------------------------------------------------------------------------
/// `t` with every `p` replaced by `r`, matches taken from the left without
/// overlap, as `str::replace` does for a non-empty `p`.
pub open spec fn replace_all(t: Seq<char>, p: Seq<char>, r: Seq<char>) -> Seq<char>
    decreases t.len(),
{
    if p.len() == 0 || t.len() < p.len() {
        t
    } else if t.take(p.len() as int) == p {
        r + replace_all(t.skip(p.len() as int), p, r)
    } else {
        seq![t[0]] + replace_all(t.skip(1), p, r)
    }
}

/// `t` with every `p` replaced by `r`.
pub fn replace_str(t: &[char], p: &str, r: &str) -> (out: Vec<char>)
    requires
        p@.len() > 0,
    ensures
        out@ == replace_all(t@, p@, r@),
{
    let pv = str_chars(p);
    let rv = str_chars(r);
    let pl = pv.len();
    let mut out: Vec<char> = Vec::new();
    let mut i: usize = 0;
    assert(t@.skip(0) =~= t@);
    while i < t.len()
        invariant
            i <= t@.len(),
            pv@ == p@,
            rv@ == r@,
            pl == p@.len(),
            pl > 0,
            replace_all(t@, p@, r@) == out@ + replace_all(t@.skip(i as int), p@, r@),
        decreases t.len() - i,
    {
        let ghost rest = t@.skip(i as int);
        let mut hit = pl <= t.len() - i;
        if hit {
            let mut j: usize = 0;
            while j < pl
                invariant
                    j <= pl,
                    pl == pv@.len(),
                    i + pl <= t@.len(),
                    t@.len() == t.len(),
                    hit == (forall|q: int| 0 <= q < j ==> t@[i + q] == pv@[q]),
                decreases pl - j,
            {
                if t[i + j] != pv[j] {
                    hit = false;
                }
                j += 1;
            }
            assert(hit == (rest.take(pl as int) =~= p@));
        } else {
            assert(rest.len() < p@.len());
        }
        if hit {
            push_all(&mut out, rv.as_slice());
            assert(rest.skip(pl as int) =~= t@.skip(i + pl));
            i += pl;
        } else {
            out.push(t[i]);
            assert(rest.skip(1) =~= t@.skip(i + 1));
            i += 1;
        }
    }
    assert(t@.skip(t@.len() as int) =~= Seq::<char>::empty());
    out
}

/// The ID a template gives, with `uuid` for the random UUID, `stem` for the
/// file stem and `ts` for the seconds since the epoch.
pub open spec fn template_text(
    tpl: Seq<char>,
    uuid: Seq<char>,
    stem: Seq<char>,
    title: Seq<char>,
    level: nat,
    index: nat,
    ts: nat,
) -> Seq<char> {
    let a = replace_all(tpl, "{uuid}"@, uuid);
    let b = replace_all(a, "{uuid_short}"@, uuid.take(8));
    let c = replace_all(b, "{file_stem}"@, stem);
    let d = replace_all(c, "{title_slug}"@, slug(title));
    let e = replace_all(d, "{level}"@, dec_digits(level));
    let f = replace_all(e, "{index}"@, dec_digits(index));
    replace_all(f, "{ts}"@, dec_digits(ts))
}

/// Expands the placeholders `{uuid}`, `{uuid_short}` (its first 8
/// characters), `{file_stem}`, `{title_slug}`, `{level}`, `{index}` and
/// `{ts}` of a template, in that order, with the values given.
pub fn expand_template_with(
    template: &str,
    uuid: &str,
    file_stem: &str,
    title: &str,
    level: usize,
    index: usize,
    ts: u64,
) -> (r: String)
    requires
        uuid@.len() >= 8,
    ensures
        r@ == template_text(template@, uuid@, file_stem@, title@, level as nat, index as nat, ts as nat),
{
    proof {
        reveal_strlit("{uuid}");
        reveal_strlit("{uuid_short}");
        reveal_strlit("{file_stem}");
        reveal_strlit("{title_slug}");
        reveal_strlit("{level}");
        reveal_strlit("{index}");
        reveal_strlit("{ts}");
    }
    let t0 = str_chars(template);
    let uv = str_chars(uuid);
    let mut short: Vec<char> = Vec::new();
    let mut k: usize = 0;
    while k < 8
        invariant
            k <= 8,
            uv@ == uuid@,
            uuid@.len() >= 8,
            short@ == uuid@.take(k as int),
        decreases 8 - k,
    {
        short.push(uv[k]);
        k += 1;
        assert(short@ =~= uuid@.take(k as int));
    }
    let short_s = string_from(short.as_slice());
    let slug_s = slugify(title);
    let mut lv: Vec<char> = Vec::new();
    push_dec(&mut lv, level);
    let lvs = string_from(lv.as_slice());
    let mut iv: Vec<char> = Vec::new();
    push_dec(&mut iv, index);
    let ivs = string_from(iv.as_slice());
    let mut tv: Vec<char> = Vec::new();
    push_dec_u64(&mut tv, ts);
    let tvs = string_from(tv.as_slice());
    let a = replace_str(t0.as_slice(), "{uuid}", uuid);
    let b = replace_str(a.as_slice(), "{uuid_short}", short_s.as_str());
    let c = replace_str(b.as_slice(), "{file_stem}", file_stem);
    let d = replace_str(c.as_slice(), "{title_slug}", slug_s.as_str());
    let e = replace_str(d.as_slice(), "{level}", lvs.as_str());
    let f = replace_str(e.as_slice(), "{index}", ivs.as_str());
    let g = replace_str(f.as_slice(), "{ts}", tvs.as_str());
    string_from(g.as_slice())
}

/// Whether `c` is a lowercase hexadecimal digit.
pub open spec fn is_lower_hex(c: char) -> bool {
    ('0' <= c && c <= '9') || ('a' <= c && c <= 'f')
}

/// The text of a version 4 UUID in hyphenated lower case: 36 characters,
/// `-` at 8, 13, 18 and 23, the version digit `4` at 14, lowercase
/// hexadecimal digits elsewhere.
pub open spec fn uuid_shape(u: Seq<char>) -> bool {
    &&& u.len() == 36
    &&& forall|i: int|
        0 <= i < 36 ==> if i == 8 || i == 13 || i == 18 || i == 23 {
            #[trigger] u[i] == '-'
        } else {
            is_lower_hex(u[i])
        }
    &&& u[14] == '4'
}

/// Calls `uuid::Uuid::new_v4` and writes it with `to_string`. The value is
/// random and nothing is promised of it but its form: the crate's source
/// sets the version nibble to 4 and writes the hyphenated lowercase form.
#[verifier::external_body]
fn new_uuid_text() -> (r: String)
    ensures
        uuid_shape(r@),
{
    uuid::Uuid::new_v4().to_string()
}

/// The file stem a template writes for `file`: `unknown` when it has none.
pub open spec fn stem_name(file: Seq<char>) -> Seq<char> {
    match path_file_stem(file) {
        Some(s) => s,
        None => "unknown"@,
    }
}

/// Facts about an entry handed to an ID generator.
pub struct EntryInfo<'a> {
    /// Path of the org file.
    pub file: &'a str,
    /// 1-based line of the heading.
    pub line: usize,
    /// Heading level (1 for `*`).
    pub level: usize,
    /// Heading title.
    pub title: &'a str,
    /// TODO keyword, if any.
    pub keyword: Option<&'a str>,
    /// Tags of the heading.
    pub tags: &'a [String],
    /// Properties of the entry's drawer.
    pub properties: &'a PropMap,
    /// Index of the entry in the document.
    pub index: usize,
}

/// Whether `id` is what the template `tpl` gives for the entry with title
/// `title`, heading level `level` and index `index` in the file `file`, with
/// some random UUID and some clock reading.
pub open spec fn template_id(tpl: Seq<char>, file: Seq<char>, title: Seq<char>, level: nat, index: nat, id: Seq<char>) -> bool {
    exists|u: Seq<char>, ts: nat| uuid_shape(u) && id == #[trigger] template_text(tpl, u, stem_name(file), title, level, index, ts)
}

/// Expands a template for an entry, with a fresh random UUID and the
/// current time.
pub fn expand_template(template: &str, info: &EntryInfo) -> (r: String)
    ensures
        template_id(template@, info.file@, info.title@, info.level as nat, info.index as nat, r@),
{
    let uuid = new_uuid_text();
    let stem = match file_stem_of(info.file) {
        Some(s) => s,
        None => "unknown".to_owned(),
    };
    let now = system_now();
    let ts = seconds_since_epoch(&now);
    let r = expand_template_with(template, uuid.as_str(), stem.as_str(), info.title, info.level, info.index, ts);
    assert(stem@ == stem_name(info.file@));
    assert(uuid_shape(uuid@) && r@ == template_text(
        template@,
        uuid@,
        stem_name(info.file@),
        info.title@,
        info.level as nat,
        info.index as nat,
        ts as nat,
    ));
    r
}

// ---------------------------------------------------------------------------
// Generators
// ---------------------------------------------------------------------------
/// How ID values are made.
pub enum IdGenerator {
    /// A random UUID (version 4).
    Uuid,
    /// A template with `{placeholder}` tokens.
    Template(String),
    /// An outside command that reads the entry as JSON and writes the ID.
    Command(String),
}

/// Whether `id` is a value that `generator` can give for the entry with
/// title `title`, heading level `level` and index `index` in the file `file`.
pub open spec fn generated(
    generator: IdGenerator,
    file: Seq<char>,
    title: Seq<char>,
    level: nat,
    index: nat,
    id: Seq<char>,
) -> bool {
    match generator {
        IdGenerator::Uuid => uuid_shape(id),
        IdGenerator::Template(t) => template_id(t@, file, title, level, index, id),
        IdGenerator::Command(_) => true,
    }
}

impl IdGenerator {
    /// The ID for `info`: a random UUID, or the template expanded. A
    /// `Command` generator runs an outside program, which is left to the
    /// caller.
    pub fn generate(&self, info: &EntryInfo) -> (r: Result<String, String>)
        requires
            !(*self is Command),
        ensures
            r matches Ok(id) && generated(*self, info.file@, info.title@, info.level as nat, info.index as nat, id@),
    {
        match self {
            IdGenerator::Uuid => Ok(new_uuid_text()),
            IdGenerator::Template(t) => Ok(expand_template(t.as_str(), info)),
            IdGenerator::Command(_) => Ok(String::new()),
        }
    }
}

/// The facts about entry `idx` that an ID generator gets.
pub fn entry_info<'a>(doc: &'a OrgDocument, idx: usize) -> (r: EntryInfo<'a>)
    requires
        idx < doc.entries@.len(),
    ensures
        r.file@ == doc.file@,
        r.line == doc.entries@[idx as int].heading_line,
        r.level == doc.entries@[idx as int].level,
        r.title@ == doc.entries@[idx as int].title@,
        match (r.keyword, doc.entries@[idx as int].keyword) {
            (Some(a), Some(b)) => a@ == b@,
            (None, None) => true,
            _ => false,
        },
        r.tags@ == doc.entries@[idx as int].tags@,
        r.properties == doc.entries@[idx as int].properties,
        r.index == idx,
{
    let e = &doc.entries[idx];
    EntryInfo {
        file: doc.file.as_str(),
        line: e.heading_line,
        level: e.level,
        title: e.title.as_str(),
        keyword: match &e.keyword {
            Some(k) => Some(k.as_str()),
            None => None,
        },
        tags: e.tags.as_slice(),
        properties: &e.properties,
        index: idx,
    }
}

// ---------------------------------------------------------------------------
// Where an ID goes
// ---------------------------------------------------------------------------
/// The line after the heading on line `hl` (1-based) and its planning line,
/// if it has one.
pub open spec fn after_heading(t: Seq<char>, hl: int) -> int {
    let sp = line_spans(t);
    if hl < sp.len() && planning_line(trim(raw_line(t, sp, hl))) {
        hl + 1
    } else {
        hl
    }
}

/// Whether the line `il` of `t` is a `:PROPERTIES:` line.
pub open spec fn drawer_opens(t: Seq<char>, il: int) -> bool {
    eq_ignore_case(trim(raw_line(t, line_spans(t), il)), ":PROPERTIES:"@)
}

/// Where the ID of the entry with its heading on line `hl` goes: the end of
/// the text when nothing follows the heading, the line after an existing
/// `:PROPERTIES:` line, else the line after the heading.
pub open spec fn id_offset(t: Seq<char>, hl: int) -> int {
    let sp = line_spans(t);
    let il = after_heading(t, hl);
    if il >= sp.len() {
        t.len() as int
    } else if drawer_opens(t, il) {
        line_offset(t, sp, il + 1)
    } else {
        sp[il].0
    }
}

/// The fix giving the entry with its heading on line `hl` the ID `id`: a
/// `:ID:` line in its existing drawer, or a new drawer holding it.
pub open spec fn id_fix(t: Seq<char>, hl: int, id: Seq<char>) -> (int, int, Seq<char>) {
    let sp = line_spans(t);
    let il = after_heading(t, hl);
    let o = id_offset(t, hl);
    if il >= sp.len() {
        (o, o, (if t.len() > 0 && t.last() == '\n' {
            Seq::empty()
        } else {
            "\n"@
        }) + ":PROPERTIES:\n:ID: "@ + id + "\n:END:\n"@)
    } else if drawer_opens(t, il) {
        (o, o, ":ID: "@ + id + "\n"@)
    } else {
        (o, o, ":PROPERTIES:\n:ID: "@ + id + "\n:END:\n"@)
    }
}

fn build_id_fix(s: &[char], lines: &Vec<(usize, usize)>, hl: usize, id_value: &str) -> (r: Fix)
    requires
        lines_of(s@, lines@),
        hl <= lines@.len(),
        s@.len() < usize::MAX - 1,
    ensures
        fix_view(r) == id_fix(s@, hl as int, id_value@),
{
    let ghost t = s@;
    let ghost sp = line_spans(t);
    let mut il = hl;
    if il < lines.len() {
        let (la, le) = lines[il];
        let (ta, tb) = crate::text::trim_range(s, la, le);
        if crate::text::starts_with_str(s, ta, tb, "SCHEDULED:") || crate::text::starts_with_str(s, ta, tb, "DEADLINE:")
            || crate::text::starts_with_str(s, ta, tb, "CLOSED:") {
            il += 1;
        }
    }
    assert(il == after_heading(t, hl as int));
    proof {
        reveal_strlit("\n");
    }
    let mut m: Vec<char> = Vec::new();
    if il >= lines.len() {
        let n = s.len();
        if !(n > 0 && s[n - 1] == '\n') {
            push_str(&mut m, "\n");
        }
        push_str(&mut m, ":PROPERTIES:\n:ID: ");
        push_str(&mut m, id_value);
        push_str(&mut m, "\n:END:\n");
        let r = Fix::new(Span::new(n, n), string_from(m.as_slice()));
        assert(fix_view(r).2 =~= id_fix(t, hl as int, id_value@).2);
        return r;
    }
    let (la, le) = lines[il];
    let (ta, tb) = crate::text::trim_range(s, la, le);
    if eq_ignore_case_str(s, ta, tb, ":PROPERTIES:") {
        let o = if il + 1 < lines.len() {
            lines[il + 1].0
        } else {
            s.len() + 1
        };
        push_str(&mut m, ":ID: ");
        push_str(&mut m, id_value);
        push_str(&mut m, "\n");
        let r = Fix::new(Span::new(o, o), string_from(m.as_slice()));
        assert(fix_view(r).2 =~= id_fix(t, hl as int, id_value@).2);
        r
    } else {
        push_str(&mut m, ":PROPERTIES:\n:ID: ");
        push_str(&mut m, id_value);
        push_str(&mut m, "\n:END:\n");
        let r = Fix::new(Span::new(la, la), string_from(m.as_slice()));
        assert(fix_view(r).2 =~= id_fix(t, hl as int, id_value@).2);
        r
    }
}

// ---------------------------------------------------------------------------
// Adding IDs
// ---------------------------------------------------------------------------
/// The text of a file after IDs were added.
pub struct AddIdResult {
    /// The new content of the file.
    pub content: String,
    /// The number of IDs inserted.
    pub ids_added: usize,
}

/// Whether entry `idx` has an `ID` property.
pub open spec fn has_id(doc: OrgDocument, idx: usize) -> bool {
    doc.entries@[idx as int].properties.get_spec("ID"@) is Some
}

/// The entries of `idxs` that have no `ID` property, in order.
pub open spec fn lacking_id(doc: OrgDocument, idxs: Seq<usize>) -> Seq<usize>
    decreases idxs.len(),
{
    if idxs.len() == 0 {
        Seq::empty()
    } else {
        let r = lacking_id(doc, idxs.drop_last());
        if has_id(doc, idxs.last()) {
            r
        } else {
            r.push(idxs.last())
        }
    }
}

/// The fixes that give the entries `targets` the IDs `ids`, one for each
/// non-empty ID.
pub open spec fn id_fixes(t: Seq<char>, doc: OrgDocument, targets: Seq<usize>, ids: Seq<Seq<char>>) -> Seq<(int, int, Seq<char>)>
    decreases targets.len(),
{
    if targets.len() == 0 || ids.len() != targets.len() {
        Seq::empty()
    } else {
        let r = id_fixes(t, doc, targets.drop_last(), ids.drop_last());
        if ids.last().len() == 0 {
            r
        } else {
            r.push(id_fix(t, doc.entries@[targets.last() as int].heading_line as int, ids.last()))
        }
    }
}

/// Whether every ID of the entries `targets` goes inside the text `t`.
pub open spec fn ids_fit(t: Seq<char>, doc: OrgDocument, targets: Seq<usize>) -> bool {
    forall|k: int| 0 <= k < targets.len() ==> id_offset(t, doc.entries@[#[trigger] targets[k] as int].heading_line as int) <= t.len()
}

/// Whether `r` is the outcome of giving the entries `targets` the IDs `ids`:
/// `None` when no ID is inserted, else the text with the fixes applied in
/// the order of their offsets.
pub open spec fn ids_outcome(t: Seq<char>, doc: OrgDocument, targets: Seq<usize>, ids: Seq<Seq<char>>, r: Option<AddIdResult>) -> bool {
    let fs = id_fixes(t, doc, targets, ids);
    &&& r is None <==> fs.len() == 0
    &&& r matches Some(res) ==> res.content@ == apply_view(t, fsort(fs), 0) && res.ids_added == fs.len()
}

/// Every non-empty ID gives one fix.
pub proof fn lemma_id_fixes_len(t: Seq<char>, doc: OrgDocument, targets: Seq<usize>, ids: Seq<Seq<char>>)
    requires
        ids.len() == targets.len(),
        forall|k: int| 0 <= k < ids.len() ==> (#[trigger] ids[k]).len() > 0,
    ensures
        id_fixes(t, doc, targets, ids).len() == targets.len(),
    decreases targets.len(),
{
    if targets.len() > 0 {
        let d = ids.drop_last();
        assert forall|k: int| 0 <= k < d.len() implies (#[trigger] d[k]).len() > 0 by {
            assert(d[k] == ids[k]);
        }
        lemma_id_fixes_len(t, doc, targets.drop_last(), d);
    }
}

/// The entries among the chosen ones that lack an `ID` property.
pub fn id_targets(doc: &OrgDocument, entry_indices: Option<&[usize]>) -> (r: Vec<usize>)
    requires
        forall|k: int| 0 <= k < chosen(*doc, opt_seq(entry_indices)).len() ==> (#[trigger] chosen(*doc, opt_seq(entry_indices))[k])
            < doc.entries@.len(),
    ensures
        r@ == lacking_id(*doc, chosen(*doc, opt_seq(entry_indices))),
        forall|k: int| 0 <= k < r@.len() ==> (#[trigger] r@[k]) < doc.entries@.len(),
{
    let ghost idxs = chosen(*doc, opt_seq(entry_indices));
    let n = match entry_indices {
        Some(v) => v.len(),
        None => doc.entries.len(),
    };
    assert(n == idxs.len());
    let mut r: Vec<usize> = Vec::new();
    let mut k: usize = 0;
    assert(idxs.take(0) =~= Seq::<usize>::empty());
    while k < n
        invariant
            k <= n == idxs.len(),
            idxs == chosen(*doc, opt_seq(entry_indices)),
            forall|q: int| 0 <= q < idxs.len() ==> (#[trigger] idxs[q]) < doc.entries@.len(),
            r@ == lacking_id(*doc, idxs.take(k as int)),
            forall|q: int| 0 <= q < r@.len() ==> (#[trigger] r@[q]) < doc.entries@.len(),
        decreases n - k,
    {
        let idx = match entry_indices {
            Some(v) => v[k],
            None => k,
        };
        assert(idx == idxs[k as int]);
        assert(idxs.take(k + 1).drop_last() =~= idxs.take(k as int));
        assert(idxs.take(k + 1).last() == idx);
        if !doc.entries[idx].properties.contains_key("ID") {
            r.push(idx);
        }
        k += 1;
    }
    assert(idxs.take(n as int) =~= idxs);
    r
}

/// Gives each entry of `targets` the ID at the same place of `ids`; empty
/// IDs are skipped. `None` when no ID is inserted.
pub fn insert_ids(source: &SourceFile, doc: &OrgDocument, targets: &[usize], ids: &[String]) -> (r: Option<AddIdResult>)
    requires
        lines_fit(*doc, source.text()),
        ids@.len() == targets@.len(),
        forall|k: int| 0 <= k < targets@.len() ==> (#[trigger] targets@[k]) < doc.entries@.len(),
        ids_fit(source.text(), *doc, targets@),
    ensures
        ids_outcome(source.text(), *doc, targets@, ids@.map_values(|x: String| x@), r),
{
    let s = source.chars();
    let ghost t = s@;
    let lines = line_ranges(s);
    let ghost iv = ids@.map_values(|x: String| x@);
    let mut fixes: Vec<Fix> = Vec::new();
    let mut k: usize = 0;
    assert(targets@.take(0) =~= Seq::<usize>::empty());
    while k < targets.len()
        invariant
            k <= targets@.len() == ids@.len() == iv.len(),
            t == s@,
            t == source.text(),
            t.len() < usize::MAX - 1,
            lines_of(t, lines@),
            lines_fit(*doc, t),
            iv == ids@.map_values(|x: String| x@),
            forall|q: int| 0 <= q < targets@.len() ==> (#[trigger] targets@[q]) < doc.entries@.len(),
            ids_fit(t, *doc, targets@),
            fixes_view(fixes@) == id_fixes(t, *doc, targets@.take(k as int), iv.take(k as int)),
            forall|j: int| 0 <= j < fixes@.len() ==> 0 <= #[trigger] fix_view(fixes@[j]).0 == fix_view(fixes@[j]).1 <= t.len(),
        decreases targets.len() - k,
    {
        let idx = targets[k];
        proof {
            lemma_lines_fit(*doc, t, idx as int);
        }
        let hl = doc.entries[idx].heading_line;
        let ghost before = fixes@;
        assert(targets@.take(k + 1).drop_last() =~= targets@.take(k as int));
        assert(iv.take(k + 1).drop_last() =~= iv.take(k as int));
        assert(iv.take(k + 1).last() == ids@[k as int]@);
        if ids[k].as_str().unicode_len() > 0 {
            let f = build_id_fix(s, &lines, hl, ids[k].as_str());
            assert(id_offset(t, doc.entries@[targets@[k as int] as int].heading_line as int) <= t.len());
            fixes.push(f);
            assert(fixes_view(fixes@) =~= fixes_view(before).push(fix_view(f)));
            assert forall|j: int| 0 <= j < fixes@.len() implies 0 <= #[trigger] fix_view(fixes@[j]).0 == fix_view(fixes@[j]).1
                <= t.len() by {
                if j < before.len() {
                    assert(fixes@[j] == before[j]);
                }
            }
        }
        k += 1;
    }
    assert(targets@.take(targets@.len() as int) =~= targets@);
    assert(iv.take(iv.len() as int) =~= iv);
    let ghost fv = fixes_view(fixes@);
    if fixes.len() == 0 {
        return None;
    }
    let n = fixes.len();
    proof {
        assert forall|j: int| 0 <= j < fv.len() implies 0 <= (#[trigger] fv[j]).0 == fv[j].1 <= t.len() by {
            assert(fv[j] == fix_view(fixes@[j]));
        }
        lemma_fsort_points(fv, t.len() as int);
    }
    let sorted = sort_fixes(fixes);
    let ghost sv = fsort(fv);
    proof {
        assert(chained(t.len() as int, sorted@, 0)) by {
            assert forall|i: int| 0 <= i < sorted@.len() implies (#[trigger] sorted@[i]).span.start <= t.len()
                && sorted@[i].span.end <= t.len() by {
                assert(fixes_view(sorted@)[i] == fix_view(sorted@[i]));
            }
            assert forall|i: int| 0 < i < sorted@.len() implies (#[trigger] sorted@[i]).span.start >= sorted@[i - 1].span.end by {
                assert(fixes_view(sorted@)[i] == fix_view(sorted@[i]));
                assert(fixes_view(sorted@)[i - 1] == fix_view(sorted@[i - 1]));
            }
            assert(fixes_view(sorted@)[0] == fix_view(sorted@[0]));
        }
        lemma_chained_fit(t.len() as int, sorted@, 0);
        lemma_spliced_view(t, sorted@, 0);
    }
    let content = apply_fixes(source.content(), sorted.as_slice());
    Some(AddIdResult { content, ids_added: n })
}

/// Whether `id` is a value `generator` can give for entry `idx` of `doc`.
pub open spec fn generated_for(generator: IdGenerator, doc: OrgDocument, idx: usize, id: Seq<char>) -> bool {
    generated(
        generator,
        doc.file@,
        doc.entries@[idx as int].title@,
        doc.entries@[idx as int].level as nat,
        idx as nat,
        id,
    )
}

/// Adds `:ID:` properties to the chosen entries (all when `entry_indices`
/// is `None`) that have none, with IDs from `generator`: inside an existing
/// drawer, else in a new drawer after the heading and its planning line.
/// `None` when no ID was inserted. A `Command` generator runs an outside
/// program, which is left to the caller.
pub fn add_ids(source: &SourceFile, doc: &OrgDocument, entry_indices: Option<&[usize]>, generator: &IdGenerator) -> (r: Result<
    Option<AddIdResult>,
    String,
>)
    requires
        !(*generator is Command),
        lines_fit(*doc, source.text()),
        forall|k: int| 0 <= k < chosen(*doc, opt_seq(entry_indices)).len() ==> (#[trigger] chosen(*doc, opt_seq(entry_indices))[k])
            < doc.entries@.len(),
        ids_fit(source.text(), *doc, lacking_id(*doc, chosen(*doc, opt_seq(entry_indices)))),
    ensures
        ({
            let targets = lacking_id(*doc, chosen(*doc, opt_seq(entry_indices)));
            &&& r matches Ok(o) && exists|ids: Seq<Seq<char>>|
                #![trigger id_fixes(source.text(), *doc, targets, ids)]
                ids.len() == targets.len() && (forall|k: int| 0 <= k < ids.len() ==> generated_for(*generator, *doc, targets[k], #[trigger] ids[k]))
                    && ids_outcome(source.text(), *doc, targets, ids, o)
            &&& *generator is Uuid ==> (r matches Ok(o) && (o is None <==> targets.len() == 0) && (o matches Some(res)
                ==> res.ids_added == targets.len()))
        }),
{
    let targets = id_targets(doc, entry_indices);
    let ghost tg = targets@;
    let mut ids: Vec<String> = Vec::new();
    let mut k: usize = 0;
    while k < targets.len()
        invariant
            k <= targets@.len(),
            tg == targets@,
            ids@.len() == k,
            !(*generator is Command),
            forall|q: int| 0 <= q < tg.len() ==> (#[trigger] tg[q]) < doc.entries@.len(),
            forall|q: int| 0 <= q < k ==> generated_for(*generator, *doc, tg[q], #[trigger] ids@[q]@),
        decreases targets.len() - k,
    {
        let info = entry_info(doc, targets[k]);
        let id = match generator.generate(&info) {
            Ok(v) => v,
            Err(e) => {
                return Err(e);
            },
        };
        assert(generated_for(*generator, *doc, tg[k as int], id@));
        ids.push(id);
        k += 1;
    }
    let ghost iv = ids@.map_values(|x: String| x@);
    assert forall|q: int| 0 <= q < iv.len() implies generated_for(*generator, *doc, tg[q], #[trigger] iv[q]) by {
        assert(iv[q] == ids@[q]@);
    }
    let r = insert_ids(source, doc, targets.as_slice(), ids.as_slice());
    proof {
        if *generator is Uuid {
            assert forall|q: int| 0 <= q < iv.len() implies (#[trigger] iv[q]).len() > 0 by {
                assert(generated_for(*generator, *doc, tg[q], iv[q]));
            }
            lemma_id_fixes_len(source.text(), *doc, tg, iv);
        }
    }
    Ok(r)
}

// ---------------------------------------------------------------------------
// Subtrees
// ---------------------------------------------------------------------------
/// The entries on the stack `st`, each followed by its descendants, from the
/// top of the stack (its last element) down.
pub open spec fn pending(es: Seq<OrgEntry>, st: Seq<usize>) -> Seq<usize>
    decreases st.len(),
{
    if st.len() == 0 {
        Seq::empty()
    } else {
        seq![st.last()] + descendants_of(es, st.last() as int) + pending(es, st.drop_last())
    }
}

/// The subtree of entry `i` in the order [`collect_subtree`] visits it: `i`,
/// then each child followed by its descendants, the last child first.
pub open spec fn subtree_order(es: Seq<OrgEntry>, i: int) -> Seq<usize> {
    seq![i as usize] + pending(es, es[i].children@)
}

/// The entries of the subtree of `entry_idx`: the entry, then its children
/// from the last to the first, each followed by its own descendants in
/// document order.
pub fn collect_subtree(doc: &OrgDocument, entry_idx: usize) -> (r: Vec<usize>)
    requires
        doc.wf(),
        entry_idx < doc.entries@.len(),
    ensures
        r@ == subtree_order(doc.entries@, entry_idx as int),
{
    let ghost es = doc.entries@;
    let total = doc.entries.len();
    proof {
        lemma_children_after(es, entry_idx as int);
    }
    let mut result: Vec<usize> = Vec::new();
    result.push(entry_idx);
    let mut stack: Vec<usize> = doc.entries[entry_idx].children.clone();
    assert(stack@ == es[entry_idx as int].children@);
    while stack.len() > 0
        invariant
            es == doc.entries@,
            es.len() == total,
            doc.wf(),
            forall|q: int| 0 <= q < stack@.len() ==> (#[trigger] stack@[q]) < es.len(),
            result@ + pending(es, stack@) == subtree_order(es, entry_idx as int),
        decreases pending(es, stack@).len(),
    {
        let ghost st = stack@;
        let c = stack.pop().unwrap();
        assert(stack@ == st.drop_last());
        assert(c == st.last());
        let ghost rest = stack@;
        proof {
            lemma_children_after(es, c as int);
        }
        result.push(c);
        let ghost gc = es[c as int].children@;
        let n = doc.entries[c].children.len();
        let mut j: usize = n;
        assert(descendants_of(es, c as int) == descendants_list(es, gc, c as int, 0));
        while j > 0
            invariant
                es == doc.entries@,
                j <= n == gc.len(),
                gc == es[c as int].children@,
                c < es.len(),
                forall|q: int| 0 <= q < gc.len() ==> c < (#[trigger] gc[q]) < es.len(),
                forall|q: int| 0 <= q < stack@.len() ==> (#[trigger] stack@[q]) < es.len(),
                pending(es, stack@) == descendants_list(es, gc, c as int, j as int) + pending(es, rest),
            decreases j,
        {
            j -= 1;
            let g = doc.entries[c].children[j];
            let ghost before = stack@;
            stack.push(g);
            assert(stack@.drop_last() == before);
            assert(descendants_list(es, gc, c as int, j as int) == seq![gc[j as int]] + descendants_of(es, g as int)
                + descendants_list(es, gc, c as int, j + 1));
            assert(pending(es, stack@) =~= descendants_list(es, gc, c as int, j as int) + pending(es, rest));
        }
        assert(result@ + pending(es, stack@) =~= subtree_order(es, entry_idx as int));
    }
    assert(result@ =~= result@ + pending(es, stack@));
    result
}

/// Entry `c`, a child of `p`, followed by its descendants.
pub open spec fn child_block(es: Seq<OrgEntry>, p: int, c: usize) -> Seq<usize> {
    seq![c] + if p < c < es.len() {
        descendants_of(es, c as int)
    } else {
        Seq::empty()
    }
}

proof fn lemma_list_last(es: Seq<OrgEntry>, cs: Seq<usize>, p: int, k: int)
    requires
        0 <= k < cs.len(),
    ensures
        descendants_list(es, cs, p, k) == descendants_list(es, cs.drop_last(), p, k) + child_block(es, p, cs.last()),
    decreases cs.len() - k,
{
    let d = cs.drop_last();
    if k == cs.len() - 1 {
        assert(descendants_list(es, cs, p, k + 1) == Seq::<usize>::empty());
        assert(descendants_list(es, d, p, k) == Seq::<usize>::empty());
        assert(descendants_list(es, cs, p, k) =~= child_block(es, p, cs.last()));
    } else {
        lemma_list_last(es, cs, p, k + 1);
        assert(d[k] == cs[k]);
        assert(descendants_list(es, cs, p, k) =~= descendants_list(es, d, p, k) + child_block(es, p, cs.last()));
    }
}

proof fn lemma_pending_members(es: Seq<OrgEntry>, cs: Seq<usize>, p: int)
    requires
        forall|j: int| 0 <= j < cs.len() ==> p < (#[trigger] cs[j]) < es.len(),
    ensures
        pending(es, cs).to_multiset() == descendants_list(es, cs, p, 0).to_multiset(),
    decreases cs.len(),
{
    if cs.len() > 0 {
        let d = cs.drop_last();
        assert forall|j: int| 0 <= j < d.len() implies p < (#[trigger] d[j]) < es.len() by {
            assert(d[j] == cs[j]);
        }
        lemma_pending_members(es, d, p);
        lemma_list_last(es, cs, p, 0);
        let b = child_block(es, p, cs.last());
        assert(cs.last() == cs[cs.len() - 1]);
        assert(pending(es, cs) =~= b + pending(es, d));
        vstd::seq_lib::lemma_multiset_commutative(b, pending(es, d));
        vstd::seq_lib::lemma_multiset_commutative(b, descendants_list(es, d, p, 0));
        vstd::seq_lib::lemma_seq_union_to_multiset_commutative(b, descendants_list(es, d, p, 0));
    }
}

/// The entries [`collect_subtree`] gives for entry `i` are `i` and its
/// descendants, each once: the same entries as the subtree in document
/// order.
pub proof fn lemma_subtree_members(doc: OrgDocument, i: int)
    requires
        doc.wf(),
        0 <= i < doc.entries@.len(),
        doc.entries@.len() <= usize::MAX,
    ensures
        subtree_order(doc.entries@, i).to_multiset() == (seq![i as usize] + descendants_of(doc.entries@, i)).to_multiset(),
{
    let es = doc.entries@;
    lemma_children_after(es, i);
    let cs = es[i].children@;
    lemma_pending_members(es, cs, i);
    assert(descendants_of(es, i) == descendants_list(es, cs, i, 0));
    let h = seq![i as usize];
    vstd::seq_lib::lemma_multiset_commutative(h, pending(es, cs));
    vstd::seq_lib::lemma_multiset_commutative(h, descendants_list(es, cs, i, 0));
}

} // verus!
