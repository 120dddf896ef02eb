//! Configuration of the rules.
use vstd::prelude::*;
use crate::text::{eq_ignore_case, str_chars, eq_at, eq_ignore_case_at};

verus! {

/// Configuration of the format rules, the lint rules and the cache.
#[derive(Debug, Clone)]
pub struct Config {
    pub format: FormatConfig,
    pub lint: LintConfig,
    pub cache: CacheConfig,
}

/// Which format rules run, and their parameters.
#[derive(Debug, Clone)]
pub struct FormatConfig {
    /// Remove trailing whitespace from all lines.
    pub trailing_whitespace: bool,
    /// Collapse consecutive blank lines.
    pub blank_lines: bool,
    /// Largest number of consecutive blank lines kept when `blank_lines` is on.
    pub max_consecutive_blank_lines: usize,
    /// Enforce blank lines before headings.
    pub heading_blank_lines: bool,
    /// Blank lines required before a heading when `heading_blank_lines` is on.
    pub heading_blank_lines_before: usize,
    /// Align table columns and normalize separators.
    pub table_format: bool,
    /// Align property values within property drawers.
    pub property_drawer_align: bool,
}

/// Configuration of the lint rules.
#[derive(Debug, Clone)]
pub struct LintConfig {
    /// Rule names or IDs that are disabled.
    pub disabled_rules: Vec<String>,
}

/// Configuration of the persistent cache.
#[derive(Debug, Clone, PartialEq, Eq)]
pub struct CacheConfig {
    /// Whether the cache is used.
    pub enabled: bool,
    /// Path of the cache database, when not the default one.
    pub path: Option<String>,
    /// Query latency in milliseconds above which enabling the cache is suggested.
    pub threshold_ms: u64,
}

impl Default for FormatConfig {
    fn default() -> (c: Self)
        ensures
            c.trailing_whitespace,
            !c.blank_lines,
            c.max_consecutive_blank_lines == 1,
            !c.heading_blank_lines,
            c.heading_blank_lines_before == 1,
            c.table_format,
            c.property_drawer_align,
    {
        FormatConfig {
            trailing_whitespace: true,
            blank_lines: false,
            max_consecutive_blank_lines: 1,
            heading_blank_lines: false,
            heading_blank_lines_before: 1,
            table_format: true,
            property_drawer_align: true,
        }
    }
}

impl Default for LintConfig {
    fn default() -> (c: Self)
        ensures
            c.disabled_rules@.len() == 0,
    {
        LintConfig { disabled_rules: Vec::new() }
    }
}

/// The default latency threshold of the cache suggestion, in milliseconds.
pub fn default_threshold_ms() -> (r: u64)
    ensures
        r == 500,
{
    500
}

impl Default for CacheConfig {
    fn default() -> (c: Self)
        ensures
            !c.enabled,
            c.path is None,
            c.threshold_ms == 500,
    {
        CacheConfig { enabled: false, path: None, threshold_ms: default_threshold_ms() }
    }
}

impl Default for Config {
    fn default() -> (c: Self)
        ensures
            c.format.trailing_whitespace,
            !c.format.blank_lines,
            c.format.max_consecutive_blank_lines == 1,
            !c.format.heading_blank_lines,
            c.format.heading_blank_lines_before == 1,
            c.format.table_format,
            c.format.property_drawer_align,
            c.lint.disabled_rules@.len() == 0,
            !c.cache.enabled,
            c.cache.path is None,
            c.cache.threshold_ms == 500,
    {
        Config { format: FormatConfig::default(), lint: LintConfig::default(), cache: CacheConfig::default() }
    }
}

/// Whether the entry `r` of the disabled list names the rule with this id and name:
/// equal to the name, or equal to the id up to ASCII case.
pub open spec fn names_rule(r: Seq<char>, id: Seq<char>, name: Seq<char>) -> bool {
    r == name || eq_ignore_case(r, id)
}

impl Config {
    /// Whether the rule with this id and name is disabled.
    pub fn is_rule_disabled(&self, id: &str, name: &str) -> (b: bool)
        ensures
            b == exists|i: int|
                0 <= i < self.lint.disabled_rules@.len() && names_rule(
                    #[trigger] self.lint.disabled_rules@[i]@,
                    id@,
                    name@,
                ),
    {
        let idv = str_chars(id);
        let namev = str_chars(name);
        let rules = &self.lint.disabled_rules;
        let mut i: usize = 0;
        while i < rules.len()
            invariant
                i <= rules@.len(),
                rules == &self.lint.disabled_rules,
                idv@ == id@,
                namev@ == name@,
                forall|j: int| 0 <= j < i ==> !names_rule(#[trigger] rules@[j]@, id@, name@),
            decreases rules.len() - i,
        {
            let r = str_chars(rules[i].as_str());
            let rs = r.as_slice();
            assert(rs@.subrange(0, rs@.len() as int) =~= rs@);
            if eq_at(rs, 0, rs.len(), namev.as_slice()) || eq_ignore_case_at(rs, 0, rs.len(), idv.as_slice()) {
                return true;
            }
            i += 1;
        }
        false
    }
}

} // verus!
