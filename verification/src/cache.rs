//! The decisions of the persistent entry cache: content hashes, what a sync
//! does with each file, which rows go stale, which schema steps to run, and
//! the dependency targets an entry records. The database itself lives with
//! the application.
use vstd::prelude::*;
use crate::archive::{join_path, path_join};
use crate::document::OrgDocument;
use crate::text::{dec_digits, hex_digits, lead_count, lemma_lead_count, push_dec_u64, push_hex, push_str,
    ranges_view, rskip_char, skip_char, str_chars, str_eq, string_from, trail_count, ws_token_ranges, ws_tokens};

verus! {

/// The schema version this cache writes.
pub const CURRENT_SCHEMA_VERSION: i32 = 1;

/// A step that moves the database schema from one version to the next.
#[derive(Debug, Clone)]
pub struct Migration {
    /// Schema version before the step.
    pub from_version: i32,
    /// Schema version after the step.
    pub to_version: i32,
    /// What the step changes.
    pub description: &'static str,
    /// The SQL statements of the step.
    pub sql: &'static str,
}

/// Counts gathered by one sync of the cache.
#[derive(Debug, Clone, Default, PartialEq, Eq)]
pub struct SyncStats {
    /// Files looked at.
    pub total_files: usize,
    /// Files found unchanged.
    pub cache_hits: usize,
    /// Files parsed and stored anew.
    pub updated_files: usize,
    /// Files dropped from the cache.
    pub deleted_files: usize,
    /// Headings in the cache afterwards.
    pub total_entries: usize,
}

/// Counts of the rows of the cache.
#[derive(Debug, Clone, Default, PartialEq, Eq)]
pub struct CacheStats {
    pub file_count: usize,
    pub entry_count: usize,
    pub tag_count: usize,
    pub dependency_count: usize,
    pub schema_version: i32,
}

/// A heading as the cache stores it.
#[derive(Debug, Clone, PartialEq, Eq)]
pub struct CachedEntry {
    pub file_path: String,
    pub entry_idx: usize,
    pub level: usize,
    pub keyword: Option<String>,
    pub priority: Option<char>,
    pub title: String,
    pub org_id: Option<String>,
    pub custom_id: Option<String>,
    pub heading_line: usize,
    pub content_end_line: usize,
    pub subtree_end_line: usize,
    pub scheduled: Option<String>,
    pub deadline: Option<String>,
    pub closed: Option<String>,
    pub tags: Vec<String>,
}

// ---------------------------------------------------------------------------
// Content hashes
// ---------------------------------------------------------------------------
/// The 64-bit FNV-1a hash of `bytes`.
pub open spec fn fnv1a(bytes: Seq<u8>) -> u64
    decreases bytes.len(),
{
    if bytes.len() == 0 {
        0xcbf29ce484222325u64
    } else {
        let h = fnv1a(bytes.drop_last()) ^ (bytes.last() as u64);
        ((h as nat * 0x100000001b3nat) % 0x1_0000_0000_0000_0000nat) as u64
    }
}

/// The FNV-1a hash of `bytes` as 16 lowercase hexadecimal digits.
pub fn compute_content_hash(bytes: &[u8]) -> (r: String)
    ensures
        r@ == hex_digits(fnv1a(bytes@) as nat, 16),
{
    let mut hash: u64 = 0xcbf29ce484222325;
    let mut i: usize = 0;
    assert(bytes@.take(0) =~= Seq::<u8>::empty());
    while i < bytes.len()
        invariant
            i <= bytes@.len(),
            hash == fnv1a(bytes@.take(i as int)),
        decreases bytes.len() - i,
    {
        assert(bytes@.take(i + 1).drop_last() =~= bytes@.take(i as int));
        assert(bytes@.take(i + 1).last() == bytes@[i as int]);
        hash = hash ^ (bytes[i] as u64);
        hash = hash.wrapping_mul(0x100000001b3);
        i += 1;
    }
    assert(bytes@.take(bytes@.len() as int) =~= bytes@);
    let mut v: Vec<char> = Vec::new();
    push_hex(&mut v, hash, 16);
    string_from(v.as_slice())
}

// ---------------------------------------------------------------------------
// Syncing one file
// ---------------------------------------------------------------------------
/// What the cache holds of a file.
pub struct FileRecord {
    pub size: i64,
    pub mtime_sec: i64,
    pub mtime_nsec: i64,
    pub hash: String,
}

/// Whether a file on record still has the size and modification time it
/// had; such a file is a cache hit without being read.
pub fn stat_unchanged(record: Option<&FileRecord>, size: i64, mtime_sec: i64, mtime_nsec: i64) -> (b: bool)
    ensures
        b == (record matches Some(r) && r.size == size && r.mtime_sec == mtime_sec && r.mtime_nsec == mtime_nsec),
{
    match record {
        Some(r) => r.size == size && r.mtime_sec == mtime_sec && r.mtime_nsec == mtime_nsec,
        None => false,
    }
}

/// What a sync does with a file whose size or modification time changed,
/// once its content was read and hashed.
#[derive(Debug, Clone, Copy, PartialEq, Eq)]
pub enum SyncAction {
    /// Same content: store the new size and time only.
    TouchStat,
    /// New file or new content: parse and store its entries.
    Reindex,
}

/// The action for a file read afresh: its hash matches the record, or not.
pub fn sync_action(record: Option<&FileRecord>, new_hash: &str) -> (a: SyncAction)
    ensures
        a == (if record matches Some(r) && r.hash@ == new_hash@ {
            SyncAction::TouchStat
        } else {
            SyncAction::Reindex
        }),
{
    match record {
        Some(r) => if str_eq(r.hash.as_str(), new_hash) {
            SyncAction::TouchStat
        } else {
            SyncAction::Reindex
        },
        None => SyncAction::Reindex,
    }
}

/// The ids of the file rows whose path is not among `active`.
pub open spec fn stale(rows: Seq<(i64, Seq<char>)>, active: Seq<Seq<char>>) -> Seq<i64>
    decreases rows.len(),
{
    if rows.len() == 0 {
        Seq::empty()
    } else {
        let r = stale(rows.drop_last(), active);
        if active.contains(rows.last().1) {
            r
        } else {
            r.push(rows.last().0)
        }
    }
}

/// The ids of the cached files that are no longer among the active paths,
/// in the order of `rows`.
pub fn stale_file_ids(rows: &[(i64, String)], active: &[String]) -> (r: Vec<i64>)
    ensures
        r@ == stale(rows@.map_values(|p: (i64, String)| (p.0, p.1@)), active@.map_values(|s: String| s@)),
{
    let ghost rv = rows@.map_values(|p: (i64, String)| (p.0, p.1@));
    let ghost av = active@.map_values(|s: String| s@);
    let mut r: Vec<i64> = Vec::new();
    let mut i: usize = 0;
    assert(rv.take(0) =~= Seq::<(i64, Seq<char>)>::empty());
    while i < rows.len()
        invariant
            i <= rows@.len() == rv.len(),
            rv == rows@.map_values(|p: (i64, String)| (p.0, p.1@)),
            av == active@.map_values(|s: String| s@),
            r@ == stale(rv.take(i as int), av),
        decreases rows.len() - i,
    {
        assert(rv.take(i + 1).drop_last() =~= rv.take(i as int));
        assert(rv.take(i + 1).last() == rv[i as int]);
        let mut found = false;
        let mut j: usize = 0;
        while j < active.len()
            invariant
                j <= active@.len() == av.len(),
                i < rows@.len(),
                av == active@.map_values(|s: String| s@),
                found == exists|q: int| 0 <= q < j && av[q] == rows@[i as int].1@,
            decreases active.len() - j,
        {
            if str_eq(active[j].as_str(), rows[i].1.as_str()) {
                found = true;
            }
            assert(av[j as int] == active@[j as int]@);
            j += 1;
        }
        proof {
            if found {
                let q = choose|q: int| 0 <= q < active@.len() && av[q] == rows@[i as int].1@;
                assert(av[q] == rv[i as int].1);
            } else {
                assert forall|q: int| 0 <= q < av.len() implies av[q] != rv[i as int].1 by {}
            }
        }
        if !found {
            r.push(rows[i].0);
        }
        i += 1;
    }
    assert(rv.take(rows@.len() as int) =~= rv);
    r
}

// ---------------------------------------------------------------------------
// Schema versions
// ---------------------------------------------------------------------------
/// The decimal text of the integer `n`, with a `-` when it is negative.
pub open spec fn int_text(n: int) -> Seq<char> {
    if n < 0 {
        "-"@ + dec_digits((-n) as nat)
    } else {
        dec_digits(n as nat)
    }
}

fn push_i32(v: &mut Vec<char>, n: i32)
    ensures
        final(v)@ == old(v)@ + int_text(n as int),
{
    proof {
        reveal_strlit("-");
    }
    if n < 0 {
        push_str(v, "-");
        let m: i64 = -(n as i64);
        push_dec_u64(v, m as u64);
    } else {
        push_dec_u64(v, n as u64);
    }
    assert(final(v)@ =~= old(v)@ + int_text(n as int));
}

/// What opening a database with a given schema version does.
#[derive(Debug, Clone, PartialEq, Eq)]
pub enum SchemaStep {
    /// A fresh database: create the current schema.
    Init,
    /// Already the current version.
    UpToDate,
    /// Run the migrations at these places of the list, in order.
    Migrate(Vec<usize>),
}

/// A schema step as plain values.
pub enum PlanView {
    Init,
    UpToDate,
    Migrate(Seq<usize>),
}

pub open spec fn step_view(s: SchemaStep) -> PlanView {
    match s {
        SchemaStep::Init => PlanView::Init,
        SchemaStep::UpToDate => PlanView::UpToDate,
        SchemaStep::Migrate(v) => PlanView::Migrate(v@),
    }
}

/// The migrations of `ms[..k]` that apply from `version`, in order, and the
/// version they lead to: a step applies when it starts where the ones
/// before it left off.
pub open spec fn migration_chain(ms: Seq<(i32, i32)>, version: int, k: int) -> (Seq<usize>, int)
    decreases k,
{
    if k <= 0 {
        (Seq::empty(), version)
    } else {
        let (steps, current) = migration_chain(ms, version, k - 1);
        if ms[k - 1].0 == current {
            (steps.push((k - 1) as usize), ms[k - 1].1 as int)
        } else {
            (steps, current)
        }
    }
}

/// The schema steps for a database at `version`, with the registered
/// migrations `ms` as pairs of their versions.
pub open spec fn schema_plan_spec(version: int, ms: Seq<(i32, i32)>) -> Result<PlanView, Seq<char>> {
    let (steps, reached) = migration_chain(ms, version, ms.len() as int);
    if version == 0 {
        Ok(PlanView::Init)
    } else if version == CURRENT_SCHEMA_VERSION {
        Ok(PlanView::UpToDate)
    } else if version > CURRENT_SCHEMA_VERSION {
        Err("database schema version "@ + int_text(version) + " is newer than supported version "@ + int_text(
            CURRENT_SCHEMA_VERSION as int,
        ))
    } else if reached != CURRENT_SCHEMA_VERSION {
        Err("could not migrate database from version "@ + int_text(version) + " to "@ + int_text(CURRENT_SCHEMA_VERSION as int))
    } else {
        Ok(PlanView::Migrate(steps))
    }
}

/// The versions of the migrations `ms`.
pub open spec fn versions_of(ms: Seq<Migration>) -> Seq<(i32, i32)> {
    ms.map_values(|m: Migration| (m.from_version, m.to_version))
}

/// Decides how to bring a database at schema `version` up to date with the
/// migrations `migrations`: create the schema (version 0), nothing (the
/// current version), refuse a newer version, or the chain of migrations
/// that leads to the current version, refused when it does not get there.
pub fn schema_plan(version: i32, migrations: &[Migration]) -> (r: Result<SchemaStep, String>)
    ensures
        schema_plan_spec(version as int, versions_of(migrations@)) == match r {
            Ok(s) => Ok::<PlanView, Seq<char>>(step_view(s)),
            Err(m) => Err::<PlanView, Seq<char>>(m@),
        },
{
    let ghost ms = versions_of(migrations@);
    if version == 0 {
        return Ok(SchemaStep::Init);
    }
    if version == CURRENT_SCHEMA_VERSION {
        return Ok(SchemaStep::UpToDate);
    }
    if version > CURRENT_SCHEMA_VERSION {
        let mut m: Vec<char> = Vec::new();
        push_str(&mut m, "database schema version ");
        push_i32(&mut m, version);
        push_str(&mut m, " is newer than supported version ");
        push_i32(&mut m, CURRENT_SCHEMA_VERSION);
        return Err(string_from(m.as_slice()));
    }
    let mut steps: Vec<usize> = Vec::new();
    let mut current: i32 = version;
    let mut k: usize = 0;
    while k < migrations.len()
        invariant
            k <= migrations@.len() == ms.len(),
            ms == versions_of(migrations@),
            (steps@, current as int) == migration_chain(ms, version as int, k as int),
        decreases migrations.len() - k,
    {
        assert(ms[k as int] == (migrations@[k as int].from_version, migrations@[k as int].to_version));
        if migrations[k].from_version == current {
            steps.push(k);
            current = migrations[k].to_version;
        }
        k += 1;
    }
    if current != CURRENT_SCHEMA_VERSION {
        let mut m: Vec<char> = Vec::new();
        push_str(&mut m, "could not migrate database from version ");
        push_i32(&mut m, version);
        push_str(&mut m, " to ");
        push_i32(&mut m, CURRENT_SCHEMA_VERSION);
        return Err(string_from(m.as_slice()));
    }
    Ok(SchemaStep::Migrate(steps))
}

// ---------------------------------------------------------------------------
// Dependencies
// ---------------------------------------------------------------------------
/// `w` without its leading and trailing `"` (`str::trim_matches('"')`).
pub open spec fn trim_quotes(w: Seq<char>) -> Seq<char> {
    let a = lead_count(w, '"');
    if a >= w.len() {
        Seq::empty()
    } else {
        w.subrange(a as int, w.len() - trail_count(w, '"'))
    }
}

/// Whether `w` holds a `(`.
pub open spec fn has_paren(w: Seq<char>) -> bool {
    exists|i: int| 0 <= i < w.len() && w[i] == '('
}

/// The words of `ws` without their quotes, keeping the non-empty ones that
/// hold no `(` (a finder call rather than an ID).
pub open spec fn dep_targets(ws: Seq<Seq<char>>) -> Seq<Seq<char>>
    decreases ws.len(),
{
    if ws.len() == 0 {
        Seq::empty()
    } else {
        let r = dep_targets(ws.drop_last());
        let c = trim_quotes(ws.last());
        if c.len() > 0 && !has_paren(c) {
            r.push(c)
        } else {
            r
        }
    }
}

proof fn lemma_trail_count(t: Seq<char>, c: char)
    ensures
        trail_count(t, c) <= t.len(),
        forall|i: int| t.len() - trail_count(t, c) <= i < t.len() ==> #[trigger] t[i] == c,
    decreases t.len(),
{
    if t.len() > 0 && t.last() == c {
        let d = t.drop_last();
        lemma_trail_count(d, c);
        assert forall|i: int| t.len() - trail_count(t, c) <= i < t.len() implies #[trigger] t[i] == c by {
            if i < t.len() - 1 {
                assert(t[i] == d[i]);
            }
        }
    }
}

/// The bounds of `trim_quotes(s[a..b])`.
fn trim_quotes_range(s: &[char], a: usize, b: usize) -> (r: (usize, usize))
    requires
        a <= b <= s@.len(),
    ensures
        a <= r.0 <= r.1 <= b,
        s@.subrange(r.0 as int, r.1 as int) == trim_quotes(s@.subrange(a as int, b as int)),
{
    let ghost w = s@.subrange(a as int, b as int);
    let x = skip_char(s, a, b, '"');
    if x == b {
        assert(s@.subrange(x as int, x as int) =~= Seq::<char>::empty());
        return (x, x);
    }
    let y = rskip_char(s, a, b, '"');
    proof {
        lemma_lead_count(w, '"');
        lemma_trail_count(w, '"');
        assert(w[x - a] != '"');
    }
    assert(s@.subrange(x as int, y as int) =~= w.subrange(x - a, w.len() - (b - y)));
    (x, y)
}

/// The dependency targets of a `BLOCKER` or `TRIGGER` value: its words
/// without quotes, keeping the non-empty ones that hold no `(`.
pub fn dependency_targets(value: &str) -> (r: Vec<String>)
    ensures
        r@.map_values(|x: String| x@) == dep_targets(ws_tokens(value@)),
{
    let t = str_chars(value);
    let s = t.as_slice();
    let ranges = ws_token_ranges(s, 0, s.len());
    assert(s@.subrange(0, s@.len() as int) =~= s@);
    let ghost ws = ranges_view(s@, ranges@);
    let mut r: Vec<String> = Vec::new();
    let mut k: usize = 0;
    assert(ws.take(0) =~= Seq::<Seq<char>>::empty());
    assert(r@.map_values(|x: String| x@) =~= Seq::<Seq<char>>::empty());
    while k < ranges.len()
        invariant
            k <= ranges@.len() == ws.len(),
            ws == ranges_view(s@, ranges@),
            forall|i: int| 0 <= i < ranges@.len() ==> 0 <= (#[trigger] ranges@[i]).0 <= ranges@[i].1 <= s@.len(),
            r@.map_values(|x: String| x@) == dep_targets(ws.take(k as int)),
        decreases ranges.len() - k,
    {
        let (a, b) = ranges[k];
        assert(ws[k as int] == s@.subrange(a as int, b as int));
        assert(ws.take(k + 1).drop_last() =~= ws.take(k as int));
        assert(ws.take(k + 1).last() == ws[k as int]);
        let (x, y) = trim_quotes_range(s, a, b);
        let ghost c = s@.subrange(x as int, y as int);
        let mut paren = false;
        let mut q = x;
        while q < y
            invariant
                x <= q <= y <= s@.len(),
                c == s@.subrange(x as int, y as int),
                paren == exists|i: int| 0 <= i < q - x && c[i] == '(',
            decreases y - q,
        {
            if s[q] == '(' {
                paren = true;
            }
            assert(c[q - x] == s@[q as int]);
            q += 1;
        }
        let ghost before = r@.map_values(|x: String| x@);
        if x < y && !paren {
            r.push(string_from(&s[x..y]));
            assert(r@.map_values(|x: String| x@) =~= before.push(c));
        }
        k += 1;
    }
    assert(ws.take(ws.len() as int) =~= ws);
    r
}

// ---------------------------------------------------------------------------
// Where the cache lives
// ---------------------------------------------------------------------------
/// The cache file for a workspace: `.org-cache.db` in the workspace root
/// when that file exists, else `cache.db` under `org-tools` in the user's
/// cache directory (`$XDG_CACHE_HOME`, else `$HOME/.cache`), else
/// `.org-cache.db` in the root or the current directory.
pub open spec fn cache_path_spec(
    root: Option<Seq<char>>,
    local_exists: bool,
    xdg_cache: Option<Seq<char>>,
    home: Option<Seq<char>>,
) -> Seq<char> {
    match (root, xdg_cache, home) {
        (Some(r), _, _) if local_exists => path_join(r, ".org-cache.db"@),
        (_, Some(x), _) => path_join(path_join(x, "org-tools"@), "cache.db"@),
        (_, None, Some(h)) => path_join(path_join(path_join(h, ".cache"@), "org-tools"@), "cache.db"@),
        (Some(r), None, None) => path_join(r, ".org-cache.db"@),
        (None, None, None) => ".org-cache.db"@,
    }
}

/// Chooses the cache file, given the workspace root, whether
/// `.org-cache.db` exists there, and the values of `XDG_CACHE_HOME` and
/// `HOME`.
pub fn cache_path_choice(
    workspace_root: Option<&str>,
    local_exists: bool,
    xdg_cache: Option<&str>,
    home: Option<&str>,
) -> (r: String)
    ensures
        r@ == cache_path_spec(
            match workspace_root {
                Some(x) => Some(x@),
                None => None,
            },
            local_exists,
            match xdg_cache {
                Some(x) => Some(x@),
                None => None,
            },
            match home {
                Some(x) => Some(x@),
                None => None,
            },
        ),
{
    if let Some(root) = workspace_root {
        if local_exists {
            return join_path(root, ".org-cache.db");
        }
    }
    match xdg_cache {
        Some(x) => {
            let a = join_path(x, "org-tools");
            join_path(a.as_str(), "cache.db")
        },
        None => match home {
            Some(h) => {
                let a = join_path(h, ".cache");
                let b = join_path(a.as_str(), "org-tools");
                join_path(b.as_str(), "cache.db")
            },
            None => match workspace_root {
                Some(root) => join_path(root, ".org-cache.db"),
                None => ".org-cache.db".to_owned(),
            },
        },
    }
}

// ---------------------------------------------------------------------------
// Subtree ends
// ---------------------------------------------------------------------------
/// The first entry after `i`, from `j` on, at the level of `i` or above, or
/// the number of entries.
pub open spec fn next_peer(d: OrgDocument, i: int, j: int) -> int
    decreases d.entries@.len() - j,
{
    if j >= d.entries@.len() || j < 0 {
        d.entries@.len() as int
    } else if d.entries@[j].level <= d.entries@[i].level {
        j
    } else {
        next_peer(d, i, j + 1)
    }
}

proof fn lemma_next_peer(d: OrgDocument, i: int, j: int)
    requires
        0 <= j <= d.entries@.len(),
    ensures
        j <= next_peer(d, i, j) <= d.entries@.len(),
    decreases d.entries@.len() - j,
{
    if j < d.entries@.len() && d.entries@[j].level > d.entries@[i].level {
        lemma_next_peer(d, i, j + 1);
    }
}

/// The line (1-based, exclusive) where the subtree of entry `i` ends: where
/// the content of the last entry before the next entry at its level or
/// above ends.
pub open spec fn subtree_end(d: OrgDocument, i: int) -> int {
    d.entries@[next_peer(d, i, i + 1) - 1].content_end_line as int
}

/// The line (1-based, exclusive) where the subtree of entry `idx` ends.
pub fn subtree_end_line(doc: &OrgDocument, idx: usize) -> (r: usize)
    requires
        idx < doc.entries@.len(),
    ensures
        r == subtree_end(*doc, idx as int),
{
    let lvl = doc.entries[idx].level;
    let n = doc.entries.len();
    let mut j = idx + 1;
    proof {
        lemma_next_peer(*doc, idx as int, j as int);
    }
    while j < doc.entries.len() && doc.entries[j].level > lvl
        invariant
            idx < j <= doc.entries@.len(),
            n == doc.entries@.len(),
            lvl == doc.entries@[idx as int].level,
            next_peer(*doc, idx as int, j as int) == next_peer(*doc, idx as int, idx + 1),
        decreases doc.entries@.len() - j,
    {
        j += 1;
    }
    doc.entries[j - 1].content_end_line
}

} // verus!
