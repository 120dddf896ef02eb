//! W004: footnotes defined but not referenced, or referenced but not defined.
use vstd::prelude::*;
use crate::diagnostic::{Diagnostic, Severity};
use crate::lines::{diag_at, diags_view, finding, finding_at, lemma_diags_push, line_ranges, line_spans, make_diag, DiagView};
use crate::rules::format::regions::{in_regions, is_protected, protected_regions_chars, protected_spec};
use crate::rules::{LintContext, LintRule};
use crate::text::{
    copy_range, find, find_char, find_char_at, find_str, push_all, push_str, seq_eq, skip_ws, starts_with,
    starts_with_str, string_from, strip_cr, strip_cr_end, trim_start,
};

verus! {

/// Reports, outside protected regions, each footnote label referenced but
/// neither defined nor given inline (at line 0, in the order first
/// referenced), then each label defined but never referenced (at its last
/// definition, in line order).
pub struct OrphanedFootnotes;

/// The label of a footnote definition line `[fn:label] text`.
pub open spec fn footnote_def(raw: Seq<char>) -> Option<Seq<char>> {
    let tr = trim_start(raw);
    if starts_with(tr, "[fn:"@) {
        let rest = tr.skip(4);
        match find_char(rest, ']') {
            Some(end) => {
                let label = rest.take(end);
                if label.len() == 0 || find_char(label, ':') is Some {
                    None
                } else {
                    Some(label)
                }
            },
            None => None,
        }
    } else {
        None
    }
}

/// The footnote references of `t`: each label with whether it is inline
/// (`[fn:label:text]`).
pub open spec fn footnote_refs(t: Seq<char>) -> Seq<(Seq<char>, bool)>
    decreases t.len(),
{
    match find(t, "[fn:"@) {
        Some(pos) => if 0 <= pos && pos + 4 <= t.len() {
            let rest = t.skip(pos + 4);
            match find_char(rest, ']') {
                Some(end) => if 0 <= end < rest.len() {
                    let content = rest.take(end);
                    let (label, inline) = match find_char(content, ':') {
                        Some(c) => (content.take(c), true),
                        None => (content, false),
                    };
                    let tail = footnote_refs(rest.skip(end + 1));
                    if label.len() > 0 {
                        seq![(label, inline)] + tail
                    } else {
                        tail
                    }
                } else {
                    Seq::empty()
                },
                None => Seq::empty(),
            }
        } else {
            Seq::empty()
        },
        None => Seq::empty(),
    }
}

/// The part of a line searched for references: after the `]` of a definition.
pub open spec fn ref_search(raw: Seq<char>) -> Seq<char> {
    if footnote_def(raw) is Some {
        let tr = trim_start(raw);
        match find_char(tr, ']') {
            Some(end) => tr.skip(end + 1),
            None => raw,
        }
    } else {
        raw
    }
}

/// The definitions (label, line start) and references of the first `n` lines.
pub open spec fn footnote_scan(t: Seq<char>, spans: Seq<(int, int)>, n: int) -> (Seq<(Seq<char>, int)>, Seq<(Seq<char>, bool)>)
    decreases n,
{
    if n <= 0 {
        (Seq::empty(), Seq::empty())
    } else {
        let (defs, refs) = footnote_scan(t, spans, n - 1);
        if in_regions(n - 1, protected_spec(t)) {
            (defs, refs)
        } else {
            let raw = strip_cr(t.subrange(spans[n - 1].0, spans[n - 1].1));
            let defs2 = match footnote_def(raw) {
                Some(l) => defs.push((l, spans[n - 1].0)),
                None => defs,
            };
            (defs2, refs + footnote_refs(ref_search(raw)))
        }
    }
}

pub open spec fn undefined_message(l: Seq<char>) -> Seq<char> {
    "footnote [fn:"@ + l + "] is referenced but never defined"@
}

pub open spec fn unreferenced_message(l: Seq<char>) -> Seq<char> {
    "footnote [fn:"@ + l + "] is defined but never referenced"@
}

pub open spec fn defines(defs: Seq<(Seq<char>, int)>, l: Seq<char>) -> bool {
    exists|k: int| 0 <= k < defs.len() && (#[trigger] defs[k]).0 == l
}

pub open spec fn refers(refs: Seq<(Seq<char>, bool)>, l: Seq<char>) -> bool {
    exists|k: int| 0 <= k < refs.len() && (#[trigger] refs[k]).0 == l
}

pub open spec fn inline_ref(refs: Seq<(Seq<char>, bool)>, l: Seq<char>) -> bool {
    exists|k: int| 0 <= k < refs.len() && (#[trigger] refs[k]).0 == l && refs[k].1
}

/// The findings for references among the first `m`: one per label, at its
/// first reference.
pub open spec fn undefined_findings(file: Seq<char>, defs: Seq<(Seq<char>, int)>, refs: Seq<(Seq<char>, bool)>, m: int) -> Seq<DiagView>
    decreases m,
{
    if m <= 0 {
        Seq::empty()
    } else {
        let l = refs[m - 1].0;
        let before = undefined_findings(file, defs, refs, m - 1);
        if !refers(refs.take(m - 1), l) && !defines(defs, l) && !inline_ref(refs, l) {
            before.push(finding(file, 0, 0, Severity::Warning, "W004"@, "orphaned-footnotes"@, undefined_message(l)))
        } else {
            before
        }
    }
}

/// The findings for definitions among the first `m`: one per label, at its
/// last definition.
pub open spec fn unreferenced_findings(t: Seq<char>, file: Seq<char>, defs: Seq<(Seq<char>, int)>, refs: Seq<(Seq<char>, bool)>, m: int) -> Seq<DiagView>
    decreases m,
{
    if m <= 0 {
        Seq::empty()
    } else {
        let (l, a) = defs[m - 1];
        let before = unreferenced_findings(t, file, defs, refs, m - 1);
        if !defines(defs.skip(m), l) && !refers(refs, l) {
            before.push(finding_at(t, file, a, Severity::Warning, "W004"@, "orphaned-footnotes"@, unreferenced_message(l)))
        } else {
            before
        }
    }
}

/// All findings of the rule on the text `t`.
pub open spec fn footnote_findings(t: Seq<char>, file: Seq<char>) -> Seq<DiagView> {
    let spans = line_spans(t);
    let (defs, refs) = footnote_scan(t, spans, spans.len() as int);
    undefined_findings(file, defs, refs, refs.len() as int) + unreferenced_findings(t, file, defs, refs, defs.len() as int)
}

/// The definition label of line `s[lo..hi]`, as a range, and the end of the `]`.
fn footnote_def_at(s: &[char], lo: usize, hi: usize) -> (r: Option<(usize, usize)>)
    requires
        lo <= hi <= s@.len(),
    ensures
        r matches Some(p) ==> lo <= p.0 <= p.1 < hi && footnote_def(s@.subrange(lo as int, hi as int)) == Some(s@.subrange(p.0 as int, p.1 as int))
            && ref_search(s@.subrange(lo as int, hi as int)) == s@.subrange(p.1 + 1, hi as int),
        r is None ==> footnote_def(s@.subrange(lo as int, hi as int)) is None,
{
    let ghost raw = s@.subrange(lo as int, hi as int);
    let k = skip_ws(s, lo, hi);
    let ghost tr = s@.subrange(k as int, hi as int);
    if starts_with_str(s, k, hi, "[fn:") {
        proof {
            reveal_strlit("[fn:");
        }
        assert(s@.subrange(k + 4, hi as int) =~= tr.skip(4));
        match find_char_at(s, k + 4, hi, ']') {
            Some(end) => {
                assert(s@.subrange(k + 4, end as int) =~= tr.skip(4).take(end - k - 4));
                let has_colon = find_char_at(s, k + 4, end, ':').is_some();
                if end > k + 4 && !has_colon {
                    proof {
                        crate::text::lemma_find_char_bound(tr.skip(4), ']');
                        assert("[fn:"@ =~= seq!['[', 'f', 'n', ':']);
                        assert forall|j: int| 0 <= j < end - k implies #[trigger] tr[j] != ']' by {
                            if j >= 4 {
                                assert(tr[j] == tr.skip(4)[j - 4]);
                            } else {
                                assert(tr[j] == tr.take(4)[j]);
                            }
                        }
                        assert(tr[end - k] == s@[end as int]);
                        crate::text::lemma_find_char_at(tr, ']', end - k);
                        assert(tr.skip(end - k + 1) =~= s@.subrange(end + 1, hi as int));
                    }
                    Some((k + 4, end))
                } else {
                    None
                }
            },
            None => None,
        }
    } else {
        None
    }
}

/// Appends the references of `s[lo..hi]` to `refs`.
fn footnote_refs_at(s: &[char], lo: usize, hi: usize, refs: &mut Vec<(Vec<char>, bool)>)
    requires
        lo <= hi <= s@.len(),
    ensures
        refs_view(final(refs)@) == refs_view(old(refs)@) + footnote_refs(s@.subrange(lo as int, hi as int)),
{
    let mut k = lo;
    let ghost base = refs_view(refs@);
    let ghost mut got: Seq<(Seq<char>, bool)> = Seq::empty();
    loop
        invariant
            lo <= k <= hi <= s@.len(),
            base == refs_view(old(refs)@),
            refs_view(refs@) == base + got,
            got + footnote_refs(s@.subrange(k as int, hi as int)) == footnote_refs(s@.subrange(lo as int, hi as int)),
        decreases hi - k,
    {
        let ghost u = s@.subrange(k as int, hi as int);
        match find_str(s, k, hi, "[fn:") {
            Some(pos) => {
                proof {
                    reveal_strlit("[fn:");
                }
                assert(s@.subrange(pos + 4, hi as int) =~= u.skip(pos - k + 4));
                match find_char_at(s, pos + 4, hi, ']') {
                    Some(end) => {
                        let ghost rest = u.skip(pos - k + 4);
                        assert(s@.subrange(pos + 4, end as int) =~= rest.take(end - pos - 4));
                        assert(s@.subrange(end + 1, hi as int) =~= rest.skip(end - pos - 4 + 1));
                        let (l1, inline) = match find_char_at(s, pos + 4, end, ':') {
                            Some(c) => {
                                assert(s@.subrange(pos + 4, c as int) =~= rest.take(end - pos - 4).take(c - pos - 4));
                                (c, true)
                            },
                            None => (end, false),
                        };
                        if l1 > pos + 4 {
                            let label = copy_range(s, pos + 4, l1);
                            let ghost before = refs_view(refs@);
                            refs.push((label, inline));
                            proof {
                                assert(refs_view(refs@) =~= before.push((s@.subrange(pos + 4, l1 as int), inline)));
                                got = got + seq![(s@.subrange(pos + 4, l1 as int), inline)];
                                assert(base + got =~= before.push((s@.subrange(pos + 4, l1 as int), inline)));
                            }
                        }
                        k = end + 1;
                    },
                    None => {
                        proof {
                            assert(footnote_refs(u) == Seq::<(Seq<char>, bool)>::empty());
                            assert(got + footnote_refs(u) =~= got);
                        }
                        return;
                    },
                }
            },
            None => {
                proof {
                    assert(got + footnote_refs(u) =~= got);
                }
                return;
            },
        }
    }
}

pub open spec fn refs_view(v: Seq<(Vec<char>, bool)>) -> Seq<(Seq<char>, bool)> {
    v.map_values(|p: (Vec<char>, bool)| (p.0@, p.1))
}

pub open spec fn defs_view(v: Seq<(Vec<char>, usize)>) -> Seq<(Seq<char>, int)> {
    v.map_values(|p: (Vec<char>, usize)| (p.0@, p.1 as int))
}

/// Whether a label among `refs[lo..hi]` is `l` (and, if `inline`, is inline).
fn refs_have(refs: &Vec<(Vec<char>, bool)>, hi: usize, l: &[char], inline: bool) -> (b: bool)
    requires
        hi <= refs@.len(),
    ensures
        b == if inline { inline_ref(refs_view(refs@).take(hi as int), l@) } else { refers(refs_view(refs@).take(hi as int), l@) },
{
    let ghost rv = refs_view(refs@).take(hi as int);
    let mut k: usize = 0;
    while k < hi
        invariant
            k <= hi <= refs@.len(),
            rv == refs_view(refs@).take(hi as int),
            forall|j: int| 0 <= j < k ==> !((#[trigger] rv[j]).0 == l@ && (!inline || rv[j].1)),
        decreases hi - k,
    {
        assert(rv[k as int] == (refs@[k as int].0@, refs@[k as int].1));
        if seq_eq(refs[k].0.as_slice(), l) && (!inline || refs[k].1) {
            return true;
        }
        k += 1;
    }
    false
}

/// Whether a label among `defs[lo..]` is `l`.
fn defs_have(defs: &Vec<(Vec<char>, usize)>, lo: usize, l: &[char]) -> (b: bool)
    requires
        lo <= defs@.len(),
    ensures
        b == defines(defs_view(defs@).skip(lo as int), l@),
{
    let ghost dv = defs_view(defs@).skip(lo as int);
    let mut k: usize = lo;
    while k < defs.len()
        invariant
            lo <= k <= defs@.len(),
            dv == defs_view(defs@).skip(lo as int),
            forall|j: int| 0 <= j < k - lo ==> (#[trigger] dv[j]).0 != l@,
        decreases defs.len() - k,
    {
        assert(dv[k - lo] == (defs@[k as int].0@, defs@[k as int].1 as int));
        if seq_eq(defs[k].0.as_slice(), l) {
            return true;
        }
        k += 1;
    }
    false
}

impl LintRule for OrphanedFootnotes {
    fn id(&self) -> (r: &'static str)
        ensures
            r@ == "W004"@,
    {
        "W004"
    }

    fn name(&self) -> (r: &'static str)
        ensures
            r@ == "orphaned-footnotes"@,
    {
        "orphaned-footnotes"
    }

    fn description(&self) -> (r: &'static str)
        ensures
            r@ == "Detect footnotes defined but not referenced, or vice versa"@,
    {
        "Detect footnotes defined but not referenced, or vice versa"
    }

    fn check(&self, ctx: &LintContext) -> (r: Vec<Diagnostic>)
        ensures
            diags_view(r@) == footnote_findings(ctx.source.text(), ctx.source.path_view()),
    {
        let s = ctx.source.chars();
        let lines = line_ranges(s);
        let regions = protected_regions_chars(s);
        let ghost t = s@;
        let ghost file = ctx.source.path_view();
        let ghost spans = line_spans(t);
        let mut defs: Vec<(Vec<char>, usize)> = Vec::new();
        let mut refs: Vec<(Vec<char>, bool)> = Vec::new();
        let mut i: usize = 0;
        while i < lines.len()
            invariant
                i <= lines@.len() == spans.len(),
                t == s@,
                spans == line_spans(t),
                regions@ == protected_spec(t),
                forall|j: int| 0 <= j < lines@.len() ==> (#[trigger] lines@[j]).0 as int == spans[j].0 && lines@[j].1 as int == spans[j].1,
                forall|j: int| 0 <= j < lines@.len() ==> (#[trigger] lines@[j]).0 <= lines@[j].1 <= s@.len(),
                forall|j: int| 0 <= j < defs@.len() ==> (#[trigger] defs@[j]).1 <= s@.len(),
                (defs_view(defs@), refs_view(refs@)) == footnote_scan(t, spans, i as int),
            decreases lines.len() - i,
        {
            if !is_protected(i, regions.as_slice()) {
                let (a, e) = lines[i];
                let e1 = strip_cr_end(s, a, e);
                match footnote_def_at(s, a, e1) {
                    Some((l0, l1)) => {
                        let label = copy_range(s, l0, l1);
                        let ghost before = defs_view(defs@);
                        defs.push((label, a));
                        assert(defs_view(defs@) =~= before.push((s@.subrange(l0 as int, l1 as int), a as int)));
                        footnote_refs_at(s, l1 + 1, e1, &mut refs);
                    },
                    None => {
                        footnote_refs_at(s, a, e1, &mut refs);
                    },
                }
            }
            i += 1;
        }
        let ghost dv = defs_view(defs@);
        let ghost rv = refs_view(refs@);
        let mut out: Vec<Diagnostic> = Vec::new();
        let mut m: usize = 0;
        while m < refs.len()
            invariant
                m <= refs@.len(),
                dv == defs_view(defs@),
                rv == refs_view(refs@),
                file == ctx.source.path_view(),
                diags_view(out@) == undefined_findings(file, dv, rv, m as int),
            decreases refs.len() - m,
        {
            let l = refs[m].0.as_slice();
            assert(rv.take(m as int) =~= refs_view(refs@).take(m as int));
            assert(rv.take(refs@.len() as int) =~= rv);
            assert(defs_view(defs@).skip(0) =~= dv);
            if !refs_have(&refs, m, l, false) && !defs_have(&defs, 0, l) && !refs_have(&refs, refs.len(), l, true) {
                let mut msg: Vec<char> = Vec::new();
                push_str(&mut msg, "footnote [fn:");
                push_all(&mut msg, l);
                push_str(&mut msg, "] is referenced but never defined");
                let d = make_diag(ctx.source, 0, 0, Severity::Warning, "W004", "orphaned-footnotes", string_from(msg.as_slice()));
                proof {
                    lemma_diags_push(out@, d);
                }
                out.push(d);
            }
            m += 1;
        }
        let mut m: usize = 0;
        let ghost base = diags_view(out@);
        while m < defs.len()
            invariant
                m <= defs@.len(),
                dv == defs_view(defs@),
                rv == refs_view(refs@),
                t == ctx.source.text(),
                file == ctx.source.path_view(),
                forall|j: int| 0 <= j < defs@.len() ==> (#[trigger] defs@[j]).1 <= t.len(),
                diags_view(out@) == base + unreferenced_findings(t, file, dv, rv, m as int),
            decreases defs.len() - m,
        {
            let l = defs[m].0.as_slice();
            assert(rv.take(refs@.len() as int) =~= rv);
            if !defs_have(&defs, m + 1, l) && !refs_have(&refs, refs.len(), l, false) {
                let mut msg: Vec<char> = Vec::new();
                push_str(&mut msg, "footnote [fn:");
                push_all(&mut msg, l);
                push_str(&mut msg, "] is defined but never referenced");
                let d = diag_at(ctx.source, defs[m].1, Severity::Warning, "W004", "orphaned-footnotes", string_from(msg.as_slice()));
                proof {
                    lemma_diags_push(out@, d);
                }
                out.push(d);
            }
            m += 1;
        }
        out
    }
}

} // verus!
