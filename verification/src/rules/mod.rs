//! Rule traits, contexts and shared parsers.
use vstd::prelude::*;
use crate::config::Config;
use crate::diagnostic::{Diagnostic, Fix};
use crate::source::SourceFile;

pub mod format;
pub mod heading;
pub mod list;
pub mod timestamp;
pub mod lint;

verus! {

/// What a format rule reads: the source and the configuration.
pub struct FormatContext<'a> {
    pub source: &'a SourceFile,
    pub config: &'a Config,
}

impl<'a> FormatContext<'a> {
    pub fn new(source: &'a SourceFile, config: &'a Config) -> (c: Self)
        ensures
            c.source == source,
            c.config == config,
    {
        FormatContext { source, config }
    }
}

/// What a lint rule reads: the source and the configuration.
pub struct LintContext<'a> {
    pub source: &'a SourceFile,
    pub config: &'a Config,
}

impl<'a> LintContext<'a> {
    pub fn new(source: &'a SourceFile, config: &'a Config) -> (c: Self)
        ensures
            c.source == source,
            c.config == config,
    {
        LintContext { source, config }
    }
}

/// A rule that produces fixes correcting the formatting of a source.
pub trait FormatRule {
    /// Rule identifier, such as `"F001"`.
    fn id(&self) -> &'static str;
    /// Kebab-case rule name.
    fn name(&self) -> &'static str;
    /// One-line description.
    fn description(&self) -> &'static str;
    /// The fixes for every formatting issue of the source.
    fn format(&self, ctx: &FormatContext) -> Vec<Fix>;
}

/// A rule that reports diagnostics on a source.
pub trait LintRule {
    /// Rule identifier, such as `"W001"`.
    fn id(&self) -> &'static str;
    /// Kebab-case rule name.
    fn name(&self) -> &'static str;
    /// One-line description.
    fn description(&self) -> &'static str;
    /// The diagnostics for every issue of the source.
    fn check(&self, ctx: &LintContext) -> Vec<Diagnostic>;
}

} // verus!
