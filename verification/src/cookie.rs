//! Statistic cookies (`[n/m]` and `[n%]`) on headings: the share of an
//! entry's TODO children that are done.
use vstd::prelude::*;
use crate::diagnostic::{Fix, Span};
use crate::document::{kids, lemma_kids_members, lemma_lines_fit, lines_fit, tree_wf, OrgDocument, OrgEntry};
use crate::formatter::apply_fixes;
use crate::lines::{fix_view, fixes_view, lemma_spans_ordered, line_ranges, line_spans};
use crate::rules::heading::{is_one_of, strings_view};
use crate::runner::{apply_view, chained, lemma_chained_fit, lemma_spliced_view};
use crate::source::SourceFile;
use crate::text::{dec_digits, ends_with, is_digit, push_dec, push_str, rfind, string_from, trim_end};

verus! {

/// The result of updating the cookies of a file.
pub struct UpdateCookieResult {
    /// The new text of the file.
    pub content: String,
    /// The number of cookies written.
    pub updated: usize,
}

/// The end of the run of digits of `t` from `i` on.
pub open spec fn digits_end(t: Seq<char>, i: int) -> int
    decreases t.len() - i,
{
    if 0 <= i < t.len() && is_digit(t[i]) {
        digits_end(t, i + 1)
    } else {
        i
    }
}

/// The first cookie of `t` from `i` on: its start, its end and whether it is
/// a percentage. After a `[` that starts no cookie the search goes on where
/// the digits, `/` or `%` after it stop.
pub open spec fn cookie_from(t: Seq<char>, i: int) -> Option<(int, int, bool)>
    decreases t.len() - i,
{
    if i < 0 || i >= t.len() {
        None
    } else if t[i] == '[' {
        let j = digits_end(t, i + 1);
        if i < j <= t.len() {
            if j < t.len() && t[j] == '/' {
                let k = digits_end(t, j + 1);
                if j < k <= t.len() {
                    if k < t.len() && t[k] == ']' {
                        Some((i, k + 1, false))
                    } else {
                        cookie_from(t, k)
                    }
                } else {
                    None
                }
            } else if j < t.len() && t[j] == '%' {
                if j + 1 < t.len() && t[j + 1] == ']' {
                    Some((i, j + 2, true))
                } else {
                    cookie_from(t, j + 1)
                }
            } else {
                cookie_from(t, j)
            }
        } else {
            None
        }
    } else {
        cookie_from(t, i + 1)
    }
}

proof fn lemma_digits_end(t: Seq<char>, i: int)
    requires
        0 <= i <= t.len(),
    ensures
        i <= digits_end(t, i) <= t.len(),
    decreases t.len() - i,
{
    if i < t.len() && is_digit(t[i]) {
        lemma_digits_end(t, i + 1);
    }
}

proof fn lemma_cookie_from(t: Seq<char>, i: int)
    requires
        0 <= i <= t.len(),
    ensures
        cookie_from(t, i) matches Some((a, b, p)) ==> i <= a < b <= t.len(),
    decreases t.len() - i,
{
    if i < t.len() {
        if t[i] == '[' {
            lemma_digits_end(t, i + 1);
            let j = digits_end(t, i + 1);
            if j < t.len() && t[j] == '/' {
                lemma_digits_end(t, j + 1);
                let k = digits_end(t, j + 1);
                if !(k < t.len() && t[k] == ']') {
                    lemma_cookie_from(t, k);
                }
            } else if j < t.len() && t[j] == '%' {
                if !(j + 1 < t.len() && t[j + 1] == ']') {
                    lemma_cookie_from(t, j + 1);
                }
            } else {
                lemma_cookie_from(t, j);
            }
        } else {
            lemma_cookie_from(t, i + 1);
        }
    }
}

/// Where a missing cookie goes on a heading line: before the tags when the
/// line ends with them, else at the end of its text.
pub open spec fn cookie_insert_pos(line: Seq<char>) -> int {
    let tr = trim_end(line);
    if ends_with(tr, ":"@) && rfind(tr, " :"@) is Some {
        rfind(tr, " :"@)->0
    } else {
        tr.len() as int
    }
}

/// The number of TODO children among `ch`, and how many of them are done.
pub open spec fn child_counts(es: Seq<OrgEntry>, ch: Seq<usize>, done_kws: Seq<Seq<char>>) -> (nat, nat)
    decreases ch.len(),
{
    if ch.len() == 0 {
        (0, 0)
    } else {
        let (t, d) = child_counts(es, ch.drop_last(), done_kws);
        match es[ch.last() as int].keyword {
            Some(kw) => (t + 1, if is_one_of(done_kws, kw@) {
                d + 1
            } else {
                d
            }),
            None => (t, d),
        }
    }
}

/// The cookie text for `done` of `total`.
pub open spec fn cookie_text(done: nat, total: nat, percent: bool) -> Seq<char> {
    if percent {
        "["@ + dec_digits(done * 100 / total) + "%]"@
    } else {
        "["@ + dec_digits(done) + "/"@ + dec_digits(total) + "]"@
    }
}

/// The fix of entry `i`: its cookie rewritten, or one inserted when
/// `insert` holds and it has none; nothing when no child has a keyword.
pub open spec fn cookie_fix(t: Seq<char>, doc: OrgDocument, i: int, insert: bool) -> Seq<(int, int, Seq<char>)> {
    let es = doc.entries@;
    let e = es[i];
    let (total, done) = child_counts(es, e.children@, strings_view(doc.todo_keywords.done@));
    let spans = line_spans(t);
    let h = e.heading_line - 1;
    let line = t.subrange(spans[h].0, spans[h].1);
    let ls = spans[h].0;
    if e.children@.len() == 0 || total == 0 {
        Seq::empty()
    } else {
        match cookie_from(line, 0) {
            Some((a, b, p)) => seq![(ls + a, ls + b, cookie_text(done, total, p))],
            None => if insert {
                let q = cookie_insert_pos(line);
                seq![(ls + q, ls + q, " "@ + cookie_text(done, total, false))]
            } else {
                Seq::empty()
            },
        }
    }
}

/// The fixes of the first `n` entries.
pub open spec fn cookie_fixes(t: Seq<char>, doc: OrgDocument, insert: bool, n: int) -> Seq<(int, int, Seq<char>)>
    decreases n,
{
    if n <= 0 {
        Seq::empty()
    } else {
        cookie_fixes(t, doc, insert, n - 1) + cookie_fix(t, doc, n - 1, insert)
    }
}

/// The first cookie of `s[lo..hi]`, with offsets relative to `lo`.
pub fn find_cookie_at(s: &[char], lo: usize, hi: usize) -> (r: Option<(usize, usize, bool)>)
    requires
        lo <= hi <= s@.len(),
    ensures
        match r {
            Some((a, b, p)) => cookie_from(s@.subrange(lo as int, hi as int), 0) == Some((a as int, b as int, p)),
            None => cookie_from(s@.subrange(lo as int, hi as int), 0) is None,
        },
{
    let ghost t = s@.subrange(lo as int, hi as int);
    let n = hi - lo;
    let mut i: usize = 0;
    while i < n
        invariant
            i <= n == t.len(),
            lo <= hi <= s@.len(),
            t == s@.subrange(lo as int, hi as int),
            cookie_from(t, 0) == cookie_from(t, i as int),
        decreases n - i,
    {
        assert(t[i as int] == s@[lo + i]);
        if s[lo + i] == '[' {
            let start = i;
            let mut j = i + 1;
            while j < n && crate::text::char_is_digit(s[lo + j])
                invariant
                    start < j <= n == t.len(),
                    t == s@.subrange(lo as int, hi as int),
                    lo <= hi <= s@.len(),
                    digits_end(t, start + 1) == digits_end(t, j as int),
                decreases n - j,
            {
                assert(t[j as int] == s@[lo + j]);
                j += 1;
            }
            proof {
                if j < n {
                    assert(t[j as int] == s@[lo + j]);
                }
            }
            if j < n && s[lo + j] == '/' {
                assert(t[j as int] == s@[lo + j]);
                let mut k = j + 1;
                while k < n && crate::text::char_is_digit(s[lo + k])
                    invariant
                        j < k <= n == t.len(),
                        t == s@.subrange(lo as int, hi as int),
                        lo <= hi <= s@.len(),
                        digits_end(t, j + 1) == digits_end(t, k as int),
                    decreases n - k,
                {
                    assert(t[k as int] == s@[lo + k]);
                    k += 1;
                }
                proof {
                    if k < n {
                        assert(t[k as int] == s@[lo + k]);
                    }
                }
                if k < n && s[lo + k] == ']' {
                    return Some((start, k + 1, false));
                }
                i = k;
            } else if j < n && s[lo + j] == '%' {
                assert(t[j as int] == s@[lo + j]);
                if j + 1 < n && s[lo + j + 1] == ']' {
                    assert(t[j + 1] == s@[lo + j + 1]);
                    return Some((start, j + 2, true));
                }
                proof {
                    if j + 1 < n {
                        assert(t[j + 1] == s@[lo + j + 1]);
                    }
                }
                i = j + 1;
            } else {
                proof {
                    if j < n {
                        assert(t[j as int] == s@[lo + j]);
                    }
                }
                i = j;
            }
        } else {
            i += 1;
        }
    }
    None
}

/// Finds a statistic cookie in a heading line: its start, its end and
/// whether it is a percentage.
pub fn find_cookie(line: &str) -> (r: Option<(usize, usize, bool)>)
    ensures
        match r {
            Some((a, b, p)) => cookie_from(line@, 0) == Some((a as int, b as int, p)),
            None => cookie_from(line@, 0) is None,
        },
{
    let c = crate::text::str_chars(line);
    assert(c@.subrange(0, c@.len() as int) =~= c@);
    find_cookie_at(c.as_slice(), 0, c.len())
}

fn insert_pos_at(s: &[char], lo: usize, hi: usize) -> (r: usize)
    requires
        lo <= hi <= s@.len(),
    ensures
        r as int == cookie_insert_pos(s@.subrange(lo as int, hi as int)),
        r <= hi - lo,
{
    let e = crate::text::rskip_ws(s, lo, hi);
    let ghost tr = s@.subrange(lo as int, e as int);
    let sp = crate::text::str_chars(" :");
    proof {
        reveal_strlit(" :");
        reveal_strlit(":");
        assert(":"@ =~= seq![':']);
    }
    if e > lo && s[e - 1] == ':' {
        assert(tr.skip(tr.len() - 1) =~= seq![s@[e - 1]]);
        match crate::text::rfind_at(s, lo, e, sp.as_slice()) {
            Some(p) => {
                return p - lo;
            },
            None => {
                assert(ends_with(tr, ":"@));
                assert(rfind(tr, " :"@) is None);
            },
        }
    } else {
        proof {
            if e > lo {
                assert(tr.skip(tr.len() - 1) =~= seq![s@[e - 1]]);
                assert(tr.skip(tr.len() - 1)[0] == s@[e - 1]);
                assert(":"@[0] == ':');
                assert(tr.skip(tr.len() - 1) != ":"@);
            }
            assert(!ends_with(tr, ":"@));
        }
    }
    assert(tr == trim_end(s@.subrange(lo as int, hi as int)));
    e - lo
}

fn push_cookie(v: &mut Vec<char>, done: usize, total: usize, percent: bool)
    requires
        total > 0,
        done <= total,
    ensures
        final(v)@ == old(v)@ + cookie_text(done as nat, total as nat, percent),
{
    push_str(v, "[");
    if percent {
        let num: u128 = (done as u128) * 100;
        let pct: u128 = num / (total as u128);
        assert(pct <= 100) by (nonlinear_arith)
            requires
                num == done * 100,
                pct as int == (num as int) / (total as int),
                done <= total,
                total > 0,
        ;
        push_dec(v, pct as usize);
        push_str(v, "%]");
    } else {
        push_dec(v, done);
        push_str(v, "/");
        push_dec(v, total);
        push_str(v, "]");
    }
    assert(final(v)@ =~= old(v)@ + cookie_text(done as nat, total as nat, percent));
}

/// Updates the statistic cookies of the headings whose children have TODO
/// keywords: an existing `[n/m]` or `[n%]` is rewritten, and with
/// `insert_missing` a `[n/m]` is added where there is none; `None` when
/// nothing changes.
pub fn update_cookies(source: &SourceFile, doc: &OrgDocument, insert_missing: bool) -> (r: Option<UpdateCookieResult>)
    requires
        lines_fit(*doc, source.text()),
    ensures
        r is None <==> cookie_fixes(source.text(), *doc, insert_missing, doc.entries@.len() as int).len() == 0,
        r matches Some(res) ==> {
            &&& res.content@ == apply_view(
                source.text(),
                cookie_fixes(source.text(), *doc, insert_missing, doc.entries@.len() as int),
                0,
            )
            &&& res.updated == cookie_fixes(source.text(), *doc, insert_missing, doc.entries@.len() as int).len()
        },
{
    let s = source.chars();
    let lines = line_ranges(s);
    let ghost t = s@;
    let ghost spans = line_spans(t);
    let ghost es = doc.entries@;
    let ghost dk = strings_view(doc.todo_keywords.done@);
    let n = doc.entries.len();
    let len = s.len();
    let mut fixes: Vec<Fix> = Vec::new();
    let ghost mut prev_line: int = -1;
    let mut i: usize = 0;
    proof {
        if n > 0 {
            lemma_lines_fit(*doc, t, 0);
        }
    }
    while i < n
        invariant
            i <= n == es.len(),
            es == doc.entries@,
            t == s@,
            t == source.text(),
            len == t.len(),
            spans == line_spans(t),
            lines_fit(*doc, t),
            dk == strings_view(doc.todo_keywords.done@),
            lines@.len() == spans.len(),
            forall|j: int| 0 <= j < lines@.len() ==> (#[trigger] lines@[j]).0 as int == spans[j].0 && lines@[j].1 as int == spans[j].1,
            forall|j: int| 0 <= j < lines@.len() ==> (#[trigger] lines@[j]).0 <= lines@[j].1 <= s@.len(),
            fixes_view(fixes@) == cookie_fixes(t, *doc, insert_missing, i as int),
            chained(len as int, fixes@, 0),
            -1 <= prev_line < spans.len(),
            i < n ==> prev_line < es[i as int].heading_line - 1,
            fixes@.len() > 0 ==> 0 <= prev_line && fixes@.last().span.end <= spans[prev_line].1,
        decreases n - i,
    {
        proof {
            lemma_lines_fit(*doc, t, i as int);
        }
        let e = &doc.entries[i];
        let ghost before = fixes_view(fixes@);
        let ghost old_fixes = fixes@;
        if e.children.len() > 0 {
            proof {
                lemma_kids_members(es, i as int, es.len() as int);
            }
            let mut total: usize = 0;
            let mut done: usize = 0;
            let mut j: usize = 0;
            let ghost ch = e.children@;
            assert(ch.take(0) =~= Seq::<usize>::empty());
            while j < e.children.len()
                invariant
                    j <= ch.len(),
                    ch == e.children@,
                    ch == kids(es, i as int, es.len() as int),
                    es == doc.entries@,
                    dk == strings_view(doc.todo_keywords.done@),
                    forall|q: int| 0 <= q < ch.len() ==> (#[trigger] ch[q]) < es.len(),
                    (total as nat, done as nat) == child_counts(es, ch.take(j as int), dk),
                    done <= total <= j,
                decreases e.children.len() - j,
            {
                let c = e.children[j];
                assert(ch.take(j + 1).drop_last() =~= ch.take(j as int));
                assert(ch.take(j + 1).last() == c);
                match &doc.entries[c].keyword {
                    Some(kw) => {
                        total += 1;
                        if doc.todo_keywords.is_done(kw.as_str()) {
                            done += 1;
                        }
                    },
                    None => {},
                }
                j += 1;
            }
            assert(ch.take(ch.len() as int) =~= ch);
            if total > 0 {
                let h = e.heading_line - 1;
                let (la, le) = lines[h];
                proof {
                    if prev_line >= 0 {
                        lemma_spans_ordered(t, prev_line, h as int);
                    }
                    lemma_spans_ordered_self(t, h as int);
                }
                match find_cookie_at(s, la, le) {
                    Some((a, b, p)) => {
                        proof {
                            lemma_cookie_from(s@.subrange(la as int, le as int), 0);
                        }
                        let mut m: Vec<char> = Vec::new();
                        push_cookie(&mut m, done, total, p);
                        fixes.push(Fix::new(Span::new(la + a, la + b), string_from(m.as_slice())));
                        proof {
                            prev_line = h as int;
                        }
                    },
                    None => {
                        if insert_missing {
                            let q = insert_pos_at(s, la, le);
                            let mut m: Vec<char> = Vec::new();
                            push_str(&mut m, " ");
                            push_cookie(&mut m, done, total, false);
                            fixes.push(Fix::new(Span::new(la + q, la + q), string_from(m.as_slice())));
                            proof {
                                prev_line = h as int;
                            }
                        }
                    },
                }
            }
        }
        proof {
            if fixes@.len() > old_fixes.len() {
                assert(fixes_view(fixes@) =~= before + cookie_fix(t, *doc, i as int, insert_missing));
                assert forall|q: int| 0 < q < fixes@.len() implies (#[trigger] fixes@[q]).span.start >= fixes@[q - 1].span.end by {
                    if q < old_fixes.len() {
                        assert(fixes@[q] == old_fixes[q] && fixes@[q - 1] == old_fixes[q - 1]);
                    } else {
                        assert(fixes@[q - 1] == old_fixes.last());
                    }
                }
                assert forall|q: int| 0 <= q < fixes@.len() implies (#[trigger] fixes@[q]).span.start <= len && fixes@[q].span.end <= len by {
                    if q < old_fixes.len() {
                        assert(fixes@[q] == old_fixes[q]);
                    }
                }
            } else {
                assert(fixes_view(fixes@) =~= before + cookie_fix(t, *doc, i as int, insert_missing));
            }
        }
        i += 1;
    }
    if fixes.len() == 0 {
        return None;
    }
    let updated = fixes.len();
    proof {
        lemma_chained_fit(len as int, fixes@, 0);
        lemma_spliced_view(t, fixes@, 0);
    }
    let content = apply_fixes(source.content(), fixes.as_slice());
    Some(UpdateCookieResult { content, updated })
}

proof fn lemma_spans_ordered_self(t: Seq<char>, h: int)
    requires
        0 <= h < line_spans(t).len(),
    ensures
        line_spans(t)[h].0 <= line_spans(t)[h].1 <= t.len(),
{
    crate::lines::lemma_line_spans_from(t, 0);
}


/// The children among `ch` that carry a TODO keyword.
pub open spec fn todo_kids(es: Seq<OrgEntry>, ch: Seq<usize>) -> Seq<usize> {
    ch.filter(|c: usize| es[c as int].keyword is Some)
}

/// Whether entry `c` carries one of the done keywords `dk`.
pub open spec fn done_kid(es: Seq<OrgEntry>, dk: Seq<Seq<char>>, c: usize) -> bool {
    es[c as int].keyword matches Some(k) && is_one_of(dk, k@)
}

/// The children among `ch` whose keyword is a done keyword.
pub open spec fn done_kids(es: Seq<OrgEntry>, ch: Seq<usize>, dk: Seq<Seq<char>>) -> Seq<usize> {
    ch.filter(|c: usize| done_kid(es, dk, c))
}

proof fn lemma_child_counts_kids(es: Seq<OrgEntry>, ch: Seq<usize>, dk: Seq<Seq<char>>)
    ensures
        child_counts(es, ch, dk) == (todo_kids(es, ch).len(), done_kids(es, ch, dk).len()),
        todo_kids(es, ch).len() <= ch.len(),
    decreases ch.len(),
{
    reveal(Seq::filter);
    if ch.len() > 0 {
        lemma_child_counts_kids(es, ch.drop_last(), dk);
    }
}

/// What is written for entry `i`: with no child carrying a TODO keyword,
/// nothing; else an existing `[n%]` cookie becomes the floor of 100 times
/// the done children over the TODO children, an existing `[n/m]` cookie
/// becomes done over TODO children, and with `insert` a missing cookie is
/// added as ` [done/total]` where `cookie_insert_pos` puts it.
pub proof fn lemma_cookie_written(t: Seq<char>, doc: OrgDocument, i: int, insert: bool)
    requires
        0 <= i < doc.entries@.len(),
    ensures
        ({
            let es = doc.entries@;
            let e = es[i];
            let total = todo_kids(es, e.children@).len();
            let done = done_kids(es, e.children@, strings_view(doc.todo_keywords.done@)).len();
            let spans = line_spans(t);
            let h = e.heading_line - 1;
            let line = t.subrange(spans[h].0, spans[h].1);
            let ls = spans[h].0;
            let fx = cookie_fix(t, doc, i, insert);
            &&& total == 0 ==> fx.len() == 0
            &&& total > 0 ==> match cookie_from(line, 0) {
                Some((a, b, pct)) => if pct {
                    fx == seq![(ls + a, ls + b, "["@ + dec_digits(100 * done / total) + "%]"@)]
                } else {
                    fx == seq![(ls + a, ls + b, "["@ + dec_digits(done) + "/"@ + dec_digits(total) + "]"@)]
                },
                None => if insert {
                    fx == seq![(ls + cookie_insert_pos(line), ls + cookie_insert_pos(line), " ["@ + dec_digits(done) + "/"@
                        + dec_digits(total) + "]"@)]
                } else {
                    fx.len() == 0
                },
            }
        }),
{
    let es = doc.entries@;
    lemma_child_counts_kids(es, es[i].children@, strings_view(doc.todo_keywords.done@));
    let total = todo_kids(es, es[i].children@).len();
    let done = done_kids(es, es[i].children@, strings_view(doc.todo_keywords.done@)).len();
    assert(100 * done == done * 100) by (nonlinear_arith);
    assert(("["@ + dec_digits(done) + "/"@ + dec_digits(total) + "]"@) =~= "["@ + dec_digits(done) + "/"@ + dec_digits(total) + "]"@);
    assert((" "@ + cookie_text(done, total, false)) =~= " ["@ + dec_digits(done) + "/"@ + dec_digits(total) + "]"@) by {
        reveal_strlit(" ");
        reveal_strlit("[");
        reveal_strlit(" [");
    }
}

} // verus!
