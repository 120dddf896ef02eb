//! The format and lint pipeline: which rules run, the diagnostics of a
//! check, and the formatted text of a format run.
use vstd::prelude::*;
use crate::config::{names_rule, Config};
use crate::diagnostic::{Diagnostic, Fix, Severity};
use crate::formatter::{apply_fixes, fixes_fit, spliced};
use crate::lines::{col_no, diag_view, diags_view, fix_view, fixes_view, line_fixes, line_no, line_spans, per_line, DiagView};
use crate::rules::format::heading_spacing::{heading_space_fix, HeadingSpacing};
use crate::rules::format::keyword_spacing::{keyword_line_fix, KeywordSpacing};
use crate::rules::format::list_format::{list_line_fix, ListFormat};
use crate::rules::format::table_formatter::{table_fixes, tables_from, TableFormatter};
use crate::rules::format::timestamp_spacing::{timestamp_line_fix, TimestampSpacing};
use crate::rules::format::trailing_whitespace::{trailing_line, TrailingWhitespace};
use crate::rules::lint::affiliated_keyword_placement::{placement_line, AffiliatedKeywordPlacement};
use crate::rules::lint::deprecated_category_setup::{category_run, DeprecatedCategorySetup};
use crate::rules::lint::duplicate_custom_id::{duplicate_run, DuplicateCustomId};
use crate::rules::lint::file_application::{app_line, FileApplication};
use crate::rules::lint::heading_level_gap::{gap_run, startup_odd, HeadingLevelGap};
use crate::rules::lint::invalid_edna_syntax::{edna_line, InvalidEdnaSyntax};
use crate::rules::lint::invalid_image_alignment::{alignment_line, InvalidImageAlignment};
use crate::rules::lint::invalid_table_formula::{tblfm_line, InvalidTableFormula};
use crate::rules::lint::misplaced_heading::{misplaced_line, MisplacedHeading};
use crate::rules::lint::misplaced_planning_info::{planning_line_finding, MisplacedPlanningInfo};
use crate::rules::lint::non_existent_setupfile::{setup_findings, NonExistentSetupfile};
use crate::rules::lint::obsolete_include_markup::{include_line, ObsoleteIncludeMarkup};
use crate::rules::lint::orphaned_affiliated_keywords::{orphan_line, OrphanedAffiliatedKeywords};
use crate::rules::lint::orphaned_footnotes::{footnote_findings, OrphanedFootnotes};
use crate::rules::lint::unclosed_block::{unclosed_findings, UnclosedBlock};
use crate::rules::{FormatContext, FormatRule, LintContext, LintRule};
use crate::source::SourceFile;
use crate::text::{push_str, string_from};

verus! {

// ---------------------------------------------------------------------------
// The rules
// ---------------------------------------------------------------------------
/// A format rule.
#[derive(Debug, Clone, Copy, PartialEq, Eq, Structural)]
pub enum FormatRuleKind {
    TrailingWhitespace,
    HeadingSpacing,
    TableFormatter,
    KeywordSpacing,
    ListFormat,
    TimestampSpacing,
}

/// A lint rule.
#[derive(Debug, Clone, Copy, PartialEq, Eq, Structural)]
pub enum LintRuleKind {
    UnclosedBlock,
    DuplicateCustomId,
    HeadingLevelGap,
    OrphanedFootnotes,
    DeprecatedCategorySetup,
    MisplacedPlanningInfo,
    FileApplication,
    ObsoleteIncludeMarkup,
    MisplacedHeading,
    OrphanedAffiliatedKeywords,
    NonExistentSetupfile,
    InvalidImageAlignment,
    AffiliatedKeywordPlacement,
    InvalidTableFormula,
    InvalidEdnaSyntax,
}

pub open spec fn format_id(k: FormatRuleKind) -> Seq<char> {
    match k {
        FormatRuleKind::TrailingWhitespace => "F001"@,
        FormatRuleKind::HeadingSpacing => "F003"@,
        FormatRuleKind::TableFormatter => "F004"@,
        FormatRuleKind::KeywordSpacing => "F006"@,
        FormatRuleKind::ListFormat => "F008"@,
        FormatRuleKind::TimestampSpacing => "F009"@,
    }
}

pub open spec fn format_name(k: FormatRuleKind) -> Seq<char> {
    match k {
        FormatRuleKind::TrailingWhitespace => "trailing-whitespace"@,
        FormatRuleKind::HeadingSpacing => "heading-spacing"@,
        FormatRuleKind::TableFormatter => "table-format"@,
        FormatRuleKind::KeywordSpacing => "keyword-spacing"@,
        FormatRuleKind::ListFormat => "list-format"@,
        FormatRuleKind::TimestampSpacing => "timestamp-spacing"@,
    }
}

pub open spec fn format_description(k: FormatRuleKind) -> Seq<char> {
    match k {
        FormatRuleKind::TrailingWhitespace => "Remove trailing whitespace from all lines"@,
        FormatRuleKind::HeadingSpacing => "Ensure one blank line before headings"@,
        FormatRuleKind::TableFormatter => "Align table columns and normalize separators"@,
        FormatRuleKind::KeywordSpacing => "Normalize spacing after #+KEYWORD:"@,
        FormatRuleKind::ListFormat => "Normalize list markers to - and checkbox case to [X]"@,
        FormatRuleKind::TimestampSpacing => "Normalize spacing in SCHEDULED/DEADLINE/CLOSED lines"@,
    }
}

pub open spec fn lint_id(k: LintRuleKind) -> Seq<char> {
    match k {
        LintRuleKind::UnclosedBlock => "E001"@,
        LintRuleKind::DuplicateCustomId => "E002"@,
        LintRuleKind::HeadingLevelGap => "W001"@,
        LintRuleKind::OrphanedFootnotes => "W004"@,
        LintRuleKind::DeprecatedCategorySetup => "W008"@,
        LintRuleKind::MisplacedPlanningInfo => "W015"@,
        LintRuleKind::FileApplication => "W016"@,
        LintRuleKind::ObsoleteIncludeMarkup => "W017"@,
        LintRuleKind::MisplacedHeading => "W020"@,
        LintRuleKind::OrphanedAffiliatedKeywords => "W021"@,
        LintRuleKind::NonExistentSetupfile => "W022"@,
        LintRuleKind::InvalidImageAlignment => "W026"@,
        LintRuleKind::AffiliatedKeywordPlacement => "W032"@,
        LintRuleKind::InvalidTableFormula => "W034"@,
        LintRuleKind::InvalidEdnaSyntax => "W035"@,
    }
}

pub open spec fn lint_name(k: LintRuleKind) -> Seq<char> {
    match k {
        LintRuleKind::UnclosedBlock => "unclosed-block"@,
        LintRuleKind::DuplicateCustomId => "duplicate-custom-id"@,
        LintRuleKind::HeadingLevelGap => "heading-level-gap"@,
        LintRuleKind::OrphanedFootnotes => "orphaned-footnotes"@,
        LintRuleKind::DeprecatedCategorySetup => "deprecated-category-setup"@,
        LintRuleKind::MisplacedPlanningInfo => "misplaced-planning-info"@,
        LintRuleKind::FileApplication => "file-application"@,
        LintRuleKind::ObsoleteIncludeMarkup => "obsolete-include-markup"@,
        LintRuleKind::MisplacedHeading => "misplaced-heading"@,
        LintRuleKind::OrphanedAffiliatedKeywords => "orphaned-affiliated-keywords"@,
        LintRuleKind::NonExistentSetupfile => "non-existent-setupfile"@,
        LintRuleKind::InvalidImageAlignment => "invalid-image-alignment"@,
        LintRuleKind::AffiliatedKeywordPlacement => "affiliated-keyword-placement"@,
        LintRuleKind::InvalidTableFormula => "invalid-table-formula"@,
        LintRuleKind::InvalidEdnaSyntax => "invalid-edna-syntax"@,
    }
}

impl FormatRuleKind {
    /// The rule's identifier.
    pub fn id(&self) -> (r: &'static str)
        ensures
            r@ == format_id(*self),
    {
        match self {
            FormatRuleKind::TrailingWhitespace => "F001",
            FormatRuleKind::HeadingSpacing => "F003",
            FormatRuleKind::TableFormatter => "F004",
            FormatRuleKind::KeywordSpacing => "F006",
            FormatRuleKind::ListFormat => "F008",
            FormatRuleKind::TimestampSpacing => "F009",
        }
    }

    /// The rule's kebab-case name.
    pub fn name(&self) -> (r: &'static str)
        ensures
            r@ == format_name(*self),
    {
        match self {
            FormatRuleKind::TrailingWhitespace => "trailing-whitespace",
            FormatRuleKind::HeadingSpacing => "heading-spacing",
            FormatRuleKind::TableFormatter => "table-format",
            FormatRuleKind::KeywordSpacing => "keyword-spacing",
            FormatRuleKind::ListFormat => "list-format",
            FormatRuleKind::TimestampSpacing => "timestamp-spacing",
        }
    }

    /// The rule's one-line description.
    pub fn description(&self) -> (r: &'static str)
        ensures
            r@ == format_description(*self),
    {
        match self {
            FormatRuleKind::TrailingWhitespace => "Remove trailing whitespace from all lines",
            FormatRuleKind::HeadingSpacing => "Ensure one blank line before headings",
            FormatRuleKind::TableFormatter => "Align table columns and normalize separators",
            FormatRuleKind::KeywordSpacing => "Normalize spacing after #+KEYWORD:",
            FormatRuleKind::ListFormat => "Normalize list markers to - and checkbox case to [X]",
            FormatRuleKind::TimestampSpacing => "Normalize spacing in SCHEDULED/DEADLINE/CLOSED lines",
        }
    }
}

impl LintRuleKind {
    /// The rule's identifier.
    pub fn id(&self) -> (r: &'static str)
        ensures
            r@ == lint_id(*self),
    {
        match self {
            LintRuleKind::UnclosedBlock => "E001",
            LintRuleKind::DuplicateCustomId => "E002",
            LintRuleKind::HeadingLevelGap => "W001",
            LintRuleKind::OrphanedFootnotes => "W004",
            LintRuleKind::DeprecatedCategorySetup => "W008",
            LintRuleKind::MisplacedPlanningInfo => "W015",
            LintRuleKind::FileApplication => "W016",
            LintRuleKind::ObsoleteIncludeMarkup => "W017",
            LintRuleKind::MisplacedHeading => "W020",
            LintRuleKind::OrphanedAffiliatedKeywords => "W021",
            LintRuleKind::NonExistentSetupfile => "W022",
            LintRuleKind::InvalidImageAlignment => "W026",
            LintRuleKind::AffiliatedKeywordPlacement => "W032",
            LintRuleKind::InvalidTableFormula => "W034",
            LintRuleKind::InvalidEdnaSyntax => "W035",
        }
    }

    /// The rule's kebab-case name.
    pub fn name(&self) -> (r: &'static str)
        ensures
            r@ == lint_name(*self),
    {
        match self {
            LintRuleKind::UnclosedBlock => "unclosed-block",
            LintRuleKind::DuplicateCustomId => "duplicate-custom-id",
            LintRuleKind::HeadingLevelGap => "heading-level-gap",
            LintRuleKind::OrphanedFootnotes => "orphaned-footnotes",
            LintRuleKind::DeprecatedCategorySetup => "deprecated-category-setup",
            LintRuleKind::MisplacedPlanningInfo => "misplaced-planning-info",
            LintRuleKind::FileApplication => "file-application",
            LintRuleKind::ObsoleteIncludeMarkup => "obsolete-include-markup",
            LintRuleKind::MisplacedHeading => "misplaced-heading",
            LintRuleKind::OrphanedAffiliatedKeywords => "orphaned-affiliated-keywords",
            LintRuleKind::NonExistentSetupfile => "non-existent-setupfile",
            LintRuleKind::InvalidImageAlignment => "invalid-image-alignment",
            LintRuleKind::AffiliatedKeywordPlacement => "affiliated-keyword-placement",
            LintRuleKind::InvalidTableFormula => "invalid-table-formula",
            LintRuleKind::InvalidEdnaSyntax => "invalid-edna-syntax",
        }
    }
}

/// The fixes that a format rule gives for the text `t`.
pub open spec fn format_spec(k: FormatRuleKind, t: Seq<char>) -> Seq<(int, int, Seq<char>)> {
    let n = line_spans(t).len() as int;
    let spans = line_spans(t);
    match k {
        FormatRuleKind::TrailingWhitespace => line_fixes(n, |i: int| trailing_line(t, spans, i)),
        FormatRuleKind::HeadingSpacing => line_fixes(n, |i: int| heading_space_fix(t, spans, i)),
        FormatRuleKind::TableFormatter => table_fixes(t, tables_from(t, spans, 0).len() as int),
        FormatRuleKind::KeywordSpacing => line_fixes(n, |i: int| keyword_line_fix(t, spans, i)),
        FormatRuleKind::ListFormat => line_fixes(n, |i: int| list_line_fix(t, spans, i)),
        FormatRuleKind::TimestampSpacing => line_fixes(n, |i: int| timestamp_line_fix(t, spans, i)),
    }
}

/// The diagnostics that a lint rule gives for the text `t` of the file
/// `file`; `ex` tells, line by line, whether a file named by
/// `#+SETUPFILE:` exists.
pub open spec fn lint_spec(k: LintRuleKind, t: Seq<char>, file: Seq<char>, ex: Seq<bool>) -> Seq<DiagView> {
    let n = line_spans(t).len() as int;
    let spans = line_spans(t);
    match k {
        LintRuleKind::UnclosedBlock => unclosed_findings(t, file),
        LintRuleKind::DuplicateCustomId => duplicate_run(t, file, spans, n).1,
        LintRuleKind::HeadingLevelGap => gap_run(t, file, spans, startup_odd(t), n).1,
        LintRuleKind::OrphanedFootnotes => footnote_findings(t, file),
        LintRuleKind::DeprecatedCategorySetup => category_run(t, file, spans, n).1,
        LintRuleKind::MisplacedPlanningInfo => per_line(n, |i: int| planning_line_finding(t, file, spans, i)),
        LintRuleKind::FileApplication => per_line(n, |i: int| app_line(t, file, spans, i)),
        LintRuleKind::ObsoleteIncludeMarkup => per_line(n, |i: int| include_line(t, file, spans, i)),
        LintRuleKind::MisplacedHeading => per_line(n, |i: int| misplaced_line(t, file, spans, i)),
        LintRuleKind::OrphanedAffiliatedKeywords => per_line(n, |i: int| orphan_line(t, file, spans, i)),
        LintRuleKind::NonExistentSetupfile => setup_findings(t, file, ex),
        LintRuleKind::InvalidImageAlignment => per_line(n, |i: int| alignment_line(t, file, spans, i)),
        LintRuleKind::AffiliatedKeywordPlacement => per_line(n, |i: int| placement_line(t, file, spans, i)),
        LintRuleKind::InvalidTableFormula => per_line(n, |i: int| tblfm_line(t, file, spans, i)),
        LintRuleKind::InvalidEdnaSyntax => per_line(n, |i: int| edna_line(t, file, spans, i)),
    }
}

/// Runs a format rule.
pub fn run_format(k: FormatRuleKind, ctx: &FormatContext) -> (r: Vec<Fix>)
    ensures
        fixes_view(r@) == format_spec(k, ctx.source.text()),
{
    match k {
        FormatRuleKind::TrailingWhitespace => TrailingWhitespace.format(ctx),
        FormatRuleKind::HeadingSpacing => HeadingSpacing.format(ctx),
        FormatRuleKind::TableFormatter => TableFormatter.format(ctx),
        FormatRuleKind::KeywordSpacing => KeywordSpacing.format(ctx),
        FormatRuleKind::ListFormat => ListFormat.format(ctx),
        FormatRuleKind::TimestampSpacing => TimestampSpacing.format(ctx),
    }
}

/// Runs a lint rule; the existence of the files that `#+SETUPFILE:` names is
/// read from the disk.
pub fn run_lint(k: LintRuleKind, ctx: &LintContext) -> (r: Vec<Diagnostic>)
    ensures
        exists|ex: Seq<bool>| diags_view(r@) == #[trigger] lint_spec(k, ctx.source.text(), ctx.source.path_view(), ex),
{
    let ghost t = ctx.source.text();
    let ghost file = ctx.source.path_view();
    let ghost n = line_spans(t).len();
    match k {
        LintRuleKind::NonExistentSetupfile => {
            let r = NonExistentSetupfile.check(ctx);
            proof {
                let ex = choose|ex: Seq<bool>| ex.len() == n && diags_view(r@) == #[trigger] setup_findings(t, file, ex);
                assert(diags_view(r@) == lint_spec(k, t, file, ex));
            }
            r
        },
        _ => {
            let r = match k {
                LintRuleKind::UnclosedBlock => UnclosedBlock.check(ctx),
                LintRuleKind::DuplicateCustomId => DuplicateCustomId.check(ctx),
                LintRuleKind::HeadingLevelGap => HeadingLevelGap.check(ctx),
                LintRuleKind::OrphanedFootnotes => OrphanedFootnotes.check(ctx),
                LintRuleKind::DeprecatedCategorySetup => DeprecatedCategorySetup.check(ctx),
                LintRuleKind::MisplacedPlanningInfo => MisplacedPlanningInfo.check(ctx),
                LintRuleKind::FileApplication => FileApplication.check(ctx),
                LintRuleKind::ObsoleteIncludeMarkup => ObsoleteIncludeMarkup.check(ctx),
                LintRuleKind::MisplacedHeading => MisplacedHeading.check(ctx),
                LintRuleKind::OrphanedAffiliatedKeywords => OrphanedAffiliatedKeywords.check(ctx),
                LintRuleKind::InvalidImageAlignment => InvalidImageAlignment.check(ctx),
                LintRuleKind::AffiliatedKeywordPlacement => AffiliatedKeywordPlacement.check(ctx),
                LintRuleKind::InvalidTableFormula => InvalidTableFormula.check(ctx),
                _ => InvalidEdnaSyntax.check(ctx),
            };
            assert(diags_view(r@) == lint_spec(k, t, file, Seq::<bool>::empty()));
            r
        },
    }
}

// ---------------------------------------------------------------------------
// Ordering diagnostics and fixes
// ---------------------------------------------------------------------------
/// Whether `a` comes no later than `b` by line, then column.
pub open spec fn dkey_le(a: DiagView, b: DiagView) -> bool {
    a.line < b.line || (a.line == b.line && a.column <= b.column)
}

/// Where `x` goes in `s[..p]`: after the last element that comes no later.
pub open spec fn dpos(s: Seq<DiagView>, x: DiagView, p: int) -> int
    decreases p,
{
    if p <= 0 || dkey_le(s[p - 1], x) {
        p
    } else {
        dpos(s, x, p - 1)
    }
}

/// `s` sorted by line and column, equal positions keeping their order.
pub open spec fn dsort(s: Seq<DiagView>) -> Seq<DiagView>
    decreases s.len(),
{
    if s.len() == 0 {
        s
    } else {
        let r = dsort(s.drop_last());
        r.insert(dpos(r, s.last(), r.len() as int), s.last())
    }
}

/// Where the fix `x` goes in `s[..p]`: after the last fix that starts no later.
pub open spec fn fpos(s: Seq<(int, int, Seq<char>)>, x: (int, int, Seq<char>), p: int) -> int
    decreases p,
{
    if p <= 0 || s[p - 1].0 <= x.0 {
        p
    } else {
        fpos(s, x, p - 1)
    }
}

/// `s` sorted by start, equal starts keeping their order.
pub open spec fn fsort(s: Seq<(int, int, Seq<char>)>) -> Seq<(int, int, Seq<char>)>
    decreases s.len(),
{
    if s.len() == 0 {
        s
    } else {
        let r = fsort(s.drop_last());
        r.insert(fpos(r, s.last(), r.len() as int), s.last())
    }
}

proof fn lemma_dpos(s: Seq<DiagView>, x: DiagView, p: int)
    requires
        0 <= p <= s.len(),
    ensures
        0 <= dpos(s, x, p) <= p,
    decreases p,
{
    if p > 0 && !dkey_le(s[p - 1], x) {
        lemma_dpos(s, x, p - 1);
    }
}

proof fn lemma_fpos(s: Seq<(int, int, Seq<char>)>, x: (int, int, Seq<char>), p: int)
    requires
        0 <= p <= s.len(),
    ensures
        0 <= fpos(s, x, p) <= p,
    decreases p,
{
    if p > 0 && s[p - 1].0 > x.0 {
        lemma_fpos(s, x, p - 1);
    }
}

proof fn lemma_fpos_split(s: Seq<(int, int, Seq<char>)>, x: (int, int, Seq<char>), p: int)
    requires
        0 <= p <= s.len(),
    ensures
        0 <= fpos(s, x, p) <= p,
        fpos(s, x, p) > 0 ==> s[fpos(s, x, p) - 1].0 <= x.0,
        forall|i: int| fpos(s, x, p) <= i < p ==> (#[trigger] s[i]).0 > x.0,
    decreases p,
{
    if p > 0 && s[p - 1].0 > x.0 {
        lemma_fpos_split(s, x, p - 1);
    }
}

/// Sorting fixes that each insert at one point of `[0, len]` keeps them
/// such, and puts their points in order.
pub proof fn lemma_fsort_points(s: Seq<(int, int, Seq<char>)>, len: int)
    requires
        forall|k: int| 0 <= k < s.len() ==> 0 <= (#[trigger] s[k]).0 == s[k].1 <= len,
    ensures
        fsort(s).len() == s.len(),
        forall|k: int| 0 <= k < fsort(s).len() ==> 0 <= (#[trigger] fsort(s)[k]).0 == fsort(s)[k].1 <= len,
        forall|k: int| 0 < k < fsort(s).len() ==> (#[trigger] fsort(s)[k]).0 >= fsort(s)[k - 1].0,
    decreases s.len(),
{
    if s.len() > 0 {
        let p = s.drop_last();
        assert forall|k: int| 0 <= k < p.len() implies 0 <= (#[trigger] p[k]).0 == p[k].1 <= len by {
            assert(p[k] == s[k]);
        }
        lemma_fsort_points(p, len);
        let r = fsort(p);
        let x = s.last();
        let q = fpos(r, x, r.len() as int);
        lemma_fpos_split(r, x, r.len() as int);
        let w = r.insert(q, x);
        assert(fsort(s) == w);
        assert forall|k: int| 0 <= k < w.len() implies 0 <= (#[trigger] w[k]).0 == w[k].1 <= len by {
            if k < q {
                assert(w[k] == r[k]);
            } else if k > q {
                assert(w[k] == r[k - 1]);
            }
        }
        assert forall|k: int| 0 < k < w.len() implies (#[trigger] w[k]).0 >= w[k - 1].0 by {
            if k < q {
                assert(w[k] == r[k] && w[k - 1] == r[k - 1]);
            } else if k == q {
                assert(w[k - 1] == r[k - 1]);
            } else if k == q + 1 {
                assert(w[k] == r[k - 1]);
            } else {
                assert(w[k] == r[k - 1] && w[k - 1] == r[k - 2]);
            }
        }
    }
}

/// Sorts diagnostics by line and column, keeping the order of equal positions.
pub fn sort_diagnostics(v: Vec<Diagnostic>) -> (r: Vec<Diagnostic>)
    ensures
        diags_view(r@) == dsort(diags_view(v@)),
{
    let mut v = v;
    let ghost vv = diags_view(v@);
    let mut out: Vec<Diagnostic> = Vec::new();
    let mut i: usize = 0;
    assert(vv.take(0) =~= Seq::<DiagView>::empty());
    assert(diags_view(out@) =~= dsort(vv.take(0)));
    while i < v.len()
        invariant
            i <= v@.len() == vv.len(),
            forall|k: int| i <= k < v@.len() ==> #[trigger] diag_view(v@[k]) == vv[k],
            diags_view(out@) == dsort(vv.take(i as int)),
        decreases v.len() - i,
    {
        let mut d = Diagnostic {
            file: String::new(),
            line: 0,
            column: 0,
            severity: Severity::Info,
            rule_id: "",
            rule: "",
            message: String::new(),
            fix: None,
        };
        assert(diag_view(v@[i as int]) == vv[i as int]);
        std::mem::swap(&mut d, &mut v[i]);
        let ghost sorted = diags_view(out@);
        let mut p = out.len();
        while p > 0 && !(out[p - 1].line < d.line || (out[p - 1].line == d.line && out[p - 1].column <= d.column))
            invariant
                p <= out@.len(),
                sorted == diags_view(out@),
                dpos(sorted, diag_view(d), out@.len() as int) == dpos(sorted, diag_view(d), p as int),
            decreases p,
        {
            assert(sorted[p - 1] == diag_view(out@[p - 1]));
            p -= 1;
        }
        proof {
            if p > 0 {
                assert(sorted[p - 1] == diag_view(out@[p - 1]));
            }
            assert(vv.take(i + 1).drop_last() =~= vv.take(i as int));
            assert(vv.take(i + 1).last() == diag_view(d));
        }
        let ghost dv = diag_view(d);
        out.insert(p, d);
        assert(diags_view(out@) =~= sorted.insert(p as int, dv));
        i += 1;
    }
    assert(vv.take(v@.len() as int) =~= vv);
    out
}

/// Sorts fixes by start, keeping the order of equal starts.
pub fn sort_fixes(v: Vec<Fix>) -> (r: Vec<Fix>)
    ensures
        fixes_view(r@) == fsort(fixes_view(v@)),
{
    let mut v = v;
    let ghost vv = fixes_view(v@);
    let mut out: Vec<Fix> = Vec::new();
    let mut i: usize = 0;
    assert(vv.take(0) =~= Seq::<(int, int, Seq<char>)>::empty());
    assert(fixes_view(out@) =~= fsort(vv.take(0)));
    while i < v.len()
        invariant
            i <= v@.len() == vv.len(),
            forall|k: int| i <= k < v@.len() ==> #[trigger] fix_view(v@[k]) == vv[k],
            fixes_view(out@) == fsort(vv.take(i as int)),
        decreases v.len() - i,
    {
        let mut f = Fix { span: crate::diagnostic::Span { start: 0, end: 0 }, replacement: String::new() };
        assert(fix_view(v@[i as int]) == vv[i as int]);
        std::mem::swap(&mut f, &mut v[i]);
        let ghost sorted = fixes_view(out@);
        let mut p = out.len();
        while p > 0 && out[p - 1].span.start > f.span.start
            invariant
                p <= out@.len(),
                sorted == fixes_view(out@),
                fpos(sorted, fix_view(f), out@.len() as int) == fpos(sorted, fix_view(f), p as int),
            decreases p,
        {
            assert(sorted[p - 1] == fix_view(out@[p - 1]));
            p -= 1;
        }
        proof {
            if p > 0 {
                assert(sorted[p - 1] == fix_view(out@[p - 1]));
            }
            assert(vv.take(i + 1).drop_last() =~= vv.take(i as int));
            assert(vv.take(i + 1).last() == fix_view(f));
        }
        let ghost fv = fix_view(f);
        out.insert(p, f);
        assert(fixes_view(out@) =~= sorted.insert(p as int, fv));
        i += 1;
    }
    assert(vv.take(v@.len() as int) =~= vv);
    out
}

// ---------------------------------------------------------------------------
// The runner
// ---------------------------------------------------------------------------
/// Runs the format and lint rules that a configuration selects.
pub struct Runner {
    /// The configuration.
    pub config: Config,
    /// The format rules, chosen by the configuration.
    pub format_rules: Vec<FormatRuleKind>,
    /// Every lint rule; the disabled ones are skipped when checking.
    pub lint_rules: Vec<LintRuleKind>,
}

/// The format rules that a configuration turns on, in the order they run.
pub open spec fn format_kinds(c: crate::config::FormatConfig) -> Seq<FormatRuleKind> {
    (if c.trailing_whitespace {
        seq![FormatRuleKind::TrailingWhitespace]
    } else {
        Seq::empty()
    }) + (if c.heading_blank_lines {
        seq![FormatRuleKind::HeadingSpacing]
    } else {
        Seq::empty()
    }) + (if c.table_format {
        seq![FormatRuleKind::TableFormatter]
    } else {
        Seq::empty()
    }) + seq![FormatRuleKind::KeywordSpacing, FormatRuleKind::ListFormat, FormatRuleKind::TimestampSpacing]
}

/// Every lint rule, in the order they run.
pub open spec fn lint_kinds() -> Seq<LintRuleKind> {
    seq![
        LintRuleKind::UnclosedBlock,
        LintRuleKind::DuplicateCustomId,
        LintRuleKind::HeadingLevelGap,
        LintRuleKind::OrphanedFootnotes,
        LintRuleKind::DeprecatedCategorySetup,
        LintRuleKind::MisplacedPlanningInfo,
        LintRuleKind::FileApplication,
        LintRuleKind::ObsoleteIncludeMarkup,
        LintRuleKind::MisplacedHeading,
        LintRuleKind::OrphanedAffiliatedKeywords,
        LintRuleKind::NonExistentSetupfile,
        LintRuleKind::InvalidImageAlignment,
        LintRuleKind::AffiliatedKeywordPlacement,
        LintRuleKind::InvalidTableFormula,
        LintRuleKind::InvalidEdnaSyntax,
    ]
}

/// Whether the configuration disables the lint rule `k`.
pub open spec fn lint_disabled(c: Config, k: LintRuleKind) -> bool {
    exists|i: int|
        0 <= i < c.lint.disabled_rules@.len() && names_rule(#[trigger] c.lint.disabled_rules@[i]@, lint_id(k), lint_name(k))
}

/// The diagnostic reporting the fix `fx` of the format rule `k`.
pub open spec fn fix_diag(t: Seq<char>, file: Seq<char>, k: FormatRuleKind, fx: (int, int, Seq<char>)) -> DiagView {
    DiagView {
        file,
        line: line_no(t, fx.0),
        column: col_no(t, fx.0),
        severity: Severity::Warning,
        rule_id: format_id(k),
        rule: format_name(k),
        message: format_description(k) + ": would reformat"@,
        fix: Some(fx),
    }
}

/// The diagnostics of the fixes `fs` of rule `k` that start within the text.
pub open spec fn fix_diags(t: Seq<char>, file: Seq<char>, k: FormatRuleKind, fs: Seq<(int, int, Seq<char>)>) -> Seq<
    DiagView,
>
    decreases fs.len(),
{
    if fs.len() == 0 {
        Seq::empty()
    } else {
        fix_diags(t, file, k, fs.drop_last()) + if fs.last().0 <= t.len() {
            seq![fix_diag(t, file, k, fs.last())]
        } else {
            Seq::empty()
        }
    }
}

/// The diagnostics of the format rules `ks`, in order.
pub open spec fn format_diags(t: Seq<char>, file: Seq<char>, ks: Seq<FormatRuleKind>) -> Seq<DiagView>
    decreases ks.len(),
{
    if ks.len() == 0 {
        Seq::empty()
    } else {
        format_diags(t, file, ks.drop_last()) + fix_diags(t, file, ks.last(), format_spec(ks.last(), t))
    }
}

/// The diagnostics of the lint rules `ks` that are not disabled, in order;
/// `exs[j]` answers the file-existence questions of rule `ks[j]`.
pub open spec fn lint_diags(c: Config, t: Seq<char>, file: Seq<char>, ks: Seq<LintRuleKind>, exs: Seq<Seq<bool>>) -> Seq<
    DiagView,
>
    decreases ks.len(),
{
    if ks.len() == 0 {
        Seq::empty()
    } else {
        lint_diags(c, t, file, ks.drop_last(), exs) + if lint_disabled(c, ks.last()) {
            Seq::empty()
        } else {
            lint_spec(ks.last(), t, file, exs[ks.len() - 1])
        }
    }
}

/// The fixes of the format rules `ks`, in order.
pub open spec fn all_fixes(t: Seq<char>, ks: Seq<FormatRuleKind>) -> Seq<(int, int, Seq<char>)>
    decreases ks.len(),
{
    if ks.len() == 0 {
        Seq::empty()
    } else {
        all_fixes(t, ks.drop_last()) + format_spec(ks.last(), t)
    }
}

/// The fixes kept from `fs[..k]` (sorted by start) by a text of length `len`:
/// a fix is kept when it lies in the text and starts at or after the end of
/// the last fix kept; the second value is that end.
pub open spec fn kept_fixes(fs: Seq<(int, int, Seq<char>)>, len: int, k: int) -> (Seq<(int, int, Seq<char>)>, int)
    decreases k,
{
    if k <= 0 || k > fs.len() {
        (Seq::empty(), 0)
    } else {
        let (kept, last_end) = kept_fixes(fs, len, k - 1);
        let f = fs[k - 1];
        if f.0 >= last_end && f.0 <= len && f.1 <= len {
            (kept.push(f), f.1)
        } else {
            (kept, last_end)
        }
    }
}

/// The text `t` with the fixes `fs` applied, as `spliced` does on fixes.
pub open spec fn apply_view(t: Seq<char>, fs: Seq<(int, int, Seq<char>)>, cursor: int) -> Seq<char>
    decreases fs.len(),
{
    if fs.len() == 0 {
        t.subrange(cursor, t.len() as int)
    } else {
        t.subrange(cursor, fs[0].0) + fs[0].2 + apply_view(t, fs.drop_first(), fs[0].1)
    }
}

/// What a format run makes of the text `t`.
pub open spec fn formatted_text(t: Seq<char>, ks: Seq<FormatRuleKind>) -> Seq<char> {
    apply_view(t, kept_fixes(fsort(all_fixes(t, ks)), t.len() as int, fsort(all_fixes(t, ks)).len() as int).0, 0)
}

impl Runner {
    /// A runner with the rules that `config` selects.
    pub fn new(config: Config) -> (r: Runner)
        ensures
            r.config == config,
            r.format_rules@ == format_kinds(config.format),
            r.lint_rules@ == lint_kinds(),
    {
        let mut format_rules: Vec<FormatRuleKind> = Vec::new();
        if config.format.trailing_whitespace {
            format_rules.push(FormatRuleKind::TrailingWhitespace);
        }
        if config.format.heading_blank_lines {
            format_rules.push(FormatRuleKind::HeadingSpacing);
        }
        if config.format.table_format {
            format_rules.push(FormatRuleKind::TableFormatter);
        }
        format_rules.push(FormatRuleKind::KeywordSpacing);
        format_rules.push(FormatRuleKind::ListFormat);
        format_rules.push(FormatRuleKind::TimestampSpacing);
        let lint_rules: Vec<LintRuleKind> = vec![
            LintRuleKind::UnclosedBlock,
            LintRuleKind::DuplicateCustomId,
            LintRuleKind::HeadingLevelGap,
            LintRuleKind::OrphanedFootnotes,
            LintRuleKind::DeprecatedCategorySetup,
            LintRuleKind::MisplacedPlanningInfo,
            LintRuleKind::FileApplication,
            LintRuleKind::ObsoleteIncludeMarkup,
            LintRuleKind::MisplacedHeading,
            LintRuleKind::OrphanedAffiliatedKeywords,
            LintRuleKind::NonExistentSetupfile,
            LintRuleKind::InvalidImageAlignment,
            LintRuleKind::AffiliatedKeywordPlacement,
            LintRuleKind::InvalidTableFormula,
            LintRuleKind::InvalidEdnaSyntax,
        ];
        assert(format_rules@ =~= format_kinds(config.format));
        assert(lint_rules@ =~= lint_kinds());
        Runner { config, format_rules, lint_rules }
    }

    /// The diagnostics of the enabled lint rules on `source`, in rule order.
    fn lint_all(&self, source: &SourceFile) -> (r: Vec<Diagnostic>)
        ensures
            exists|exs: Seq<Seq<bool>>|
                diags_view(r@) == #[trigger] lint_diags(self.config, source.text(), source.path_view(), self.lint_rules@, exs),
    {
        let lint_ctx = LintContext::new(source, &self.config);
        let ghost t = source.text();
        let ghost file = source.path_view();
        let ghost ks = self.lint_rules@;
        let ghost mut exs: Seq<Seq<bool>> = Seq::empty();
        let mut out: Vec<Diagnostic> = Vec::new();
        let mut i: usize = 0;
        assert(ks.take(0) =~= Seq::<LintRuleKind>::empty());
        while i < self.lint_rules.len()
            invariant
                i <= ks.len(),
                ks == self.lint_rules@,
                lint_ctx.source == source,
                lint_ctx.config == &self.config,
                t == source.text(),
                file == source.path_view(),
                exs.len() == i,
                diags_view(out@) == lint_diags(self.config, t, file, ks.take(i as int), exs),
            decreases self.lint_rules.len() - i,
        {
            let k = self.lint_rules[i];
            let ghost before = diags_view(out@);
            let ghost mut ex: Seq<bool> = Seq::empty();
            if !self.config.is_rule_disabled(k.id(), k.name()) {
                let mut d = run_lint(k, &lint_ctx);
                proof {
                    ex = choose|ex: Seq<bool>| diags_view(d@) == #[trigger] lint_spec(k, t, file, ex);
                }
                out.append(&mut d);
                assert(diags_view(out@) =~= before + lint_spec(k, t, file, ex));
            }
            proof {
                let old_exs = exs;
                exs = exs.push(ex);
                lemma_lint_diags_extend(self.config, t, file, ks.take(i as int), old_exs, exs);
                assert(ks.take(i + 1).drop_last() =~= ks.take(i as int));
                assert(ks.take(i + 1).last() == k);
                assert(lint_disabled(self.config, k) == exists|j: int|
                    0 <= j < self.config.lint.disabled_rules@.len() && names_rule(
                        #[trigger] self.config.lint.disabled_rules@[j]@,
                        lint_id(k),
                        lint_name(k),
                    ));
            }
            i += 1;
        }
        assert(ks.take(ks.len() as int) =~= ks);
        out
    }

    /// Reports what the format rules would change and what the enabled lint
    /// rules find, sorted by line and column.
    pub fn check(&self, source: &SourceFile) -> (r: Vec<Diagnostic>)
        ensures
            exists|exs: Seq<Seq<bool>>|
                diags_view(r@) == dsort(
                    format_diags(source.text(), source.path_view(), self.format_rules@) + #[trigger] lint_diags(
                        self.config,
                        source.text(),
                        source.path_view(),
                        self.lint_rules@,
                        exs,
                    ),
                ),
    {
        let fmt_ctx = FormatContext::new(source, &self.config);
        let ghost t = source.text();
        let ghost file = source.path_view();
        let ghost ks = self.format_rules@;
        let len = source.chars().len();
        let mut out: Vec<Diagnostic> = Vec::new();
        let mut i: usize = 0;
        assert(ks.take(0) =~= Seq::<FormatRuleKind>::empty());
        while i < self.format_rules.len()
            invariant
                i <= ks.len(),
                ks == self.format_rules@,
                fmt_ctx.source == source,
                t == source.text(),
                len == t.len(),
                file == source.path_view(),
                diags_view(out@) == format_diags(t, file, ks.take(i as int)),
            decreases self.format_rules.len() - i,
        {
            let k = self.format_rules[i];
            let mut fixes = run_format(k, &fmt_ctx);
            let ghost fv = fixes_view(fixes@);
            let ghost base = diags_view(out@);
            let mut m: Vec<char> = Vec::new();
            push_str(&mut m, k.description());
            push_str(&mut m, ": would reformat");
            let mut j: usize = 0;
            assert(fv.take(0) =~= Seq::<(int, int, Seq<char>)>::empty());
            while j < fixes.len()
                invariant
                    j <= fixes@.len() == fv.len(),
                    forall|q: int| j <= q < fixes@.len() ==> #[trigger] fix_view(fixes@[q]) == fv[q],
                    t == source.text(),
                    len == t.len(),
                    file == source.path_view(),
                    m@ == format_description(k) + ": would reformat"@,
                    diags_view(out@) == base + fix_diags(t, file, k, fv.take(j as int)),
                decreases fixes.len() - j,
            {
                let mut f = Fix { span: crate::diagnostic::Span { start: 0, end: 0 }, replacement: String::new() };
                assert(fix_view(fixes@[j as int]) == fv[j as int]);
                std::mem::swap(&mut f, &mut fixes[j]);
                assert(fv.take(j + 1).drop_last() =~= fv.take(j as int));
                assert(fv.take(j + 1).last() == fix_view(f));
                let ghost before = diags_view(out@);
                if f.span.start <= len {
                    let (line, column) = source.line_col(f.span.start);
                    let d = Diagnostic {
                        file: source.path(),
                        line,
                        column,
                        severity: Severity::Warning,
                        rule_id: k.id(),
                        rule: k.name(),
                        message: string_from(m.as_slice()),
                        fix: Some(f),
                    };
                    out.push(d);
                    assert(diags_view(out@) =~= before.push(diag_view(d)));
                }
                assert(diags_view(out@) =~= base + fix_diags(t, file, k, fv.take(j + 1)));
                j += 1;
            }
            assert(fv.take(fv.len() as int) =~= fv);
            assert(ks.take(i + 1).drop_last() =~= ks.take(i as int));
            assert(ks.take(i + 1).last() == k);
            i += 1;
        }
        assert(ks.take(ks.len() as int) =~= ks);
        let mut lint = self.lint_all(source);
        let ghost fd = diags_view(out@);
        let ghost ld = diags_view(lint@);
        let ghost exs = choose|exs: Seq<Seq<bool>>|
            ld == #[trigger] lint_diags(self.config, t, file, self.lint_rules@, exs);
        out.append(&mut lint);
        assert(diags_view(out@) =~= fd + ld);
        let r = sort_diagnostics(out);
        assert(diags_view(r@) == dsort(fd + lint_diags(self.config, t, file, self.lint_rules@, exs)));
        r
    }
}

proof fn lemma_lint_diags_extend(
    c: Config,
    t: Seq<char>,
    file: Seq<char>,
    ks: Seq<LintRuleKind>,
    a: Seq<Seq<bool>>,
    b: Seq<Seq<bool>>,
)
    requires
        ks.len() <= a.len(),
        a.len() <= b.len(),
        forall|j: int| 0 <= j < a.len() ==> #[trigger] a[j] == b[j],
    ensures
        lint_diags(c, t, file, ks, a) == lint_diags(c, t, file, ks, b),
    decreases ks.len(),
{
    if ks.len() > 0 {
        lemma_lint_diags_extend(c, t, file, ks.drop_last(), a, b);
        assert(a[ks.len() - 1] == b[ks.len() - 1]);
    }
}

pub proof fn lemma_spliced_view(t: Seq<char>, fs: Seq<Fix>, cursor: int)
    ensures
        spliced(t, fs, cursor) == apply_view(t, fixes_view(fs), cursor),
    decreases fs.len(),
{
    if fs.len() > 0 {
        assert(fixes_view(fs).drop_first() =~= fixes_view(fs.drop_first()));
        lemma_spliced_view(t, fs.drop_first(), fs[0].span.end as int);
    }
}

/// Fixes lying in a text of length `len`, each starting at or after the end
/// of the one before, and the first at or after `cursor`.
pub open spec fn chained(len: int, fs: Seq<Fix>, cursor: int) -> bool {
    &&& cursor <= len
    &&& forall|i: int| 0 <= i < fs.len() ==> (#[trigger] fs[i]).span.start <= len && fs[i].span.end <= len
    &&& forall|i: int| 0 < i < fs.len() ==> (#[trigger] fs[i]).span.start >= fs[i - 1].span.end
    &&& fs.len() > 0 ==> fs[0].span.start >= cursor
}

pub proof fn lemma_chained_fit(len: int, fs: Seq<Fix>, cursor: int)
    requires
        chained(len, fs, cursor),
    ensures
        fixes_fit(len, fs, cursor),
    decreases fs.len(),
{
    if fs.len() > 0 {
        let d = fs.drop_first();
        assert forall|i: int| 0 < i < d.len() implies (#[trigger] d[i]).span.start >= d[i - 1].span.end by {
            assert(d[i] == fs[i + 1] && d[i - 1] == fs[i]);
        }
        assert forall|i: int| 0 <= i < d.len() implies (#[trigger] d[i]).span.start <= len && d[i].span.end <= len by {
            assert(d[i] == fs[i + 1]);
        }
        if d.len() > 0 {
            assert(d[0] == fs[1]);
        }
        lemma_chained_fit(len, d, fs[0].span.end as int);
    }
}

impl Runner {
    /// Applies the fixes of the format rules, sorted by start and dropping
    /// each fix that overlaps one kept before it, then lints the result.
    pub fn format(&self, source: &SourceFile) -> (r: (String, Vec<Diagnostic>))
        ensures
            r.0@ == formatted_text(source.text(), self.format_rules@),
            r.0@.len() < usize::MAX - 1 ==> exists|exs: Seq<Seq<bool>>|
                diags_view(r.1@) == dsort(
                    #[trigger] lint_diags(self.config, r.0@, source.path_view(), self.lint_rules@, exs),
                ),
    {
        let fmt_ctx = FormatContext::new(source, &self.config);
        let ghost t = source.text();
        let ghost ks = self.format_rules@;
        let mut all: Vec<Fix> = Vec::new();
        let mut i: usize = 0;
        assert(ks.take(0) =~= Seq::<FormatRuleKind>::empty());
        while i < self.format_rules.len()
            invariant
                i <= ks.len(),
                ks == self.format_rules@,
                fmt_ctx.source == source,
                t == source.text(),
                fixes_view(all@) == all_fixes(t, ks.take(i as int)),
            decreases self.format_rules.len() - i,
        {
            let k = self.format_rules[i];
            let mut fixes = run_format(k, &fmt_ctx);
            let ghost before = fixes_view(all@);
            let ghost fv = fixes_view(fixes@);
            all.append(&mut fixes);
            assert(fixes_view(all@) =~= before + fv);
            assert(ks.take(i + 1).drop_last() =~= ks.take(i as int));
            assert(ks.take(i + 1).last() == k);
            i += 1;
        }
        assert(ks.take(ks.len() as int) =~= ks);
        let mut sorted = sort_fixes(all);
        let ghost sv = fixes_view(sorted@);
        let len = source.chars().len();
        let mut kept: Vec<Fix> = Vec::new();
        let mut last_end: usize = 0;
        let mut j: usize = 0;
        while j < sorted.len()
            invariant
                j <= sorted@.len() == sv.len(),
                len == t.len(),
                forall|q: int| j <= q < sorted@.len() ==> #[trigger] fix_view(sorted@[q]) == sv[q],
                (fixes_view(kept@), last_end as int) == kept_fixes(sv, len as int, j as int),
                chained(len as int, kept@, 0),
                kept@.len() > 0 ==> last_end == kept@.last().span.end,
                kept@.len() == 0 ==> last_end == 0,
                last_end <= len,
            decreases sorted.len() - j,
        {
            let mut f = Fix { span: crate::diagnostic::Span { start: 0, end: 0 }, replacement: String::new() };
            assert(fix_view(sorted@[j as int]) == sv[j as int]);
            std::mem::swap(&mut f, &mut sorted[j]);
            if f.span.start >= last_end && f.span.start <= len && f.span.end <= len {
                last_end = f.span.end;
                let ghost before = kept@;
                kept.push(f);
                assert(fixes_view(kept@) =~= fixes_view(before).push(fix_view(f)));
                assert(chained(len as int, kept@, 0)) by {
                    assert forall|q: int| 0 < q < kept@.len() implies (#[trigger] kept@[q]).span.start >= kept@[q - 1].span.end by {
                        if q == kept@.len() - 1 {
                            assert(kept@[q - 1] == before.last());
                        } else {
                            assert(kept@[q] == before[q] && kept@[q - 1] == before[q - 1]);
                        }
                    }
                    assert forall|q: int| 0 <= q < kept@.len() implies (#[trigger] kept@[q]).span.start <= len && kept@[q].span.end <= len by {
                        if q < before.len() {
                            assert(kept@[q] == before[q]);
                        }
                    }
                }
            }
            j += 1;
        }
        proof {
            lemma_chained_fit(len as int, kept@, 0);
            lemma_spliced_view(t, kept@, 0);
        }
        let formatted = apply_fixes(source.content(), kept.as_slice());
        if formatted.as_str().unicode_len() >= usize::MAX - 1 {
            return (formatted, Vec::new());
        }
        let path = source.path();
        let formatted_source = SourceFile::new(path.as_str(), formatted.clone());
        let lint = self.lint_all(&formatted_source);
        let diags = sort_diagnostics(lint);
        (formatted, diags)
    }
}

impl Default for Runner {
    /// A runner with the default configuration.
    fn default() -> (r: Runner)
        ensures
            r.format_rules@ == seq![
                FormatRuleKind::TrailingWhitespace,
                FormatRuleKind::TableFormatter,
                FormatRuleKind::KeywordSpacing,
                FormatRuleKind::ListFormat,
                FormatRuleKind::TimestampSpacing,
            ],
            r.lint_rules@ == lint_kinds(),
            r.config.lint.disabled_rules@.len() == 0,
    {
        let r = Runner::new(Config::default());
        assert(r.format_rules@ =~= seq![
            FormatRuleKind::TrailingWhitespace,
            FormatRuleKind::TableFormatter,
            FormatRuleKind::KeywordSpacing,
            FormatRuleKind::ListFormat,
            FormatRuleKind::TimestampSpacing,
        ]);
        r
    }
}

} // verus!
