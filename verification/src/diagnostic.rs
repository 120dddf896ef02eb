//! Spans, fixes and diagnostics produced by the rules.
use vstd::prelude::*;

verus! {

/// A half-open range `[start, end)` of character offsets into a source text.
#[derive(Clone, Copy, Debug, PartialEq, Eq, Structural)]
pub struct Span {
    pub start: usize,
    pub end: usize,
}

impl Span {
    pub fn new(start: usize, end: usize) -> (s: Span)
        ensures
            s.start == start,
            s.end == end,
    {
        Span { start, end }
    }
}

/// A replacement of the text under `span` by `replacement`.
#[derive(Debug)]
pub struct Fix {
    pub span: Span,
    pub replacement: String,
}

impl Fix {
    pub fn new(span: Span, replacement: String) -> (f: Fix)
        ensures
            f.span == span,
            f.replacement@ == replacement@,
    {
        Fix { span, replacement }
    }
}

/// How serious a diagnostic is.
#[derive(Clone, Copy, Debug, PartialEq, Eq, Structural)]
pub enum Severity {
    Error,
    Warning,
    Info,
}

/// A finding reported by a rule, located by 1-based line and column.
#[derive(Debug)]
pub struct Diagnostic {
    pub file: String,
    pub line: usize,
    pub column: usize,
    pub severity: Severity,
    pub rule_id: &'static str,
    pub rule: &'static str,
    pub message: String,
    pub fix: Option<Fix>,
}

} // verus!
