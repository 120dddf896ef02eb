#![allow(unused_imports)]
use org_tools_core::config::Config;
use org_tools_core::diagnostic::{Fix, Span};
use org_tools_core::formatter::apply_fixes;
use org_tools_core::rules::format::keyword_spacing::KeywordSpacing;
use org_tools_core::rules::{FormatContext, FormatRule};
use org_tools_core::source::SourceFile;

fn format_it(input: &str) -> String {
    let source = SourceFile::new("test.org", input.to_string());
    let config = Config::default();
    let ctx = FormatContext::new(&source, &config);
    let fixes = KeywordSpacing.format(&ctx);
    apply_fixes(input, &fixes)
}

#[test]
fn keyword_spacing_already_correct() {
    assert_eq!(format_it("#+TITLE: My Title\n"), "#+TITLE: My Title\n");
}

#[test]
fn keyword_spacing_no_space() {
    assert_eq!(format_it("#+TITLE:My Title\n"), "#+TITLE: My Title\n");
}

#[test]
fn keyword_spacing_extra_spaces() {
    assert_eq!(format_it("#+TITLE:   My Title\n"), "#+TITLE: My Title\n");
}

#[test]
fn empty_value() {
    // No value after colon — leave as-is.
    assert_eq!(format_it("#+STARTUP:\n"), "#+STARTUP:\n");
}

#[test]
fn block_not_touched() {
    let input = "#+BEGIN_SRC python\ncode\n#+END_SRC\n";
    assert_eq!(format_it(input), input);
}

#[test]
fn multiple_keywords() {
    let input = "#+TITLE:A\n#+AUTHOR:  B\n";
    assert_eq!(format_it(input), "#+TITLE: A\n#+AUTHOR: B\n");
}
