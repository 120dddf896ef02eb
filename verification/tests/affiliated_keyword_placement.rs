#![allow(unused_imports)]
use org_tools_core::config::Config;
use org_tools_core::diagnostic::{Diagnostic, Severity};
use org_tools_core::rules::lint::affiliated_keyword_placement::AffiliatedKeywordPlacement;
use org_tools_core::rules::{LintContext, LintRule};
use org_tools_core::source::SourceFile;

fn check_it(input: &str) -> Vec<Diagnostic> {
    let source = SourceFile::new("test.org", input.to_string());
    let config = Config::default();
    let ctx = LintContext::new(&source, &config);
    AffiliatedKeywordPlacement.check(&ctx)
}

#[test]
fn properly_placed() {
    assert!(check_it("#+CAPTION: My table\n| a | b |\n").is_empty());
}

#[test]
fn separated_by_blank_line() {
    let diags = check_it("#+CAPTION: My table\n\n| a | b |\n");
    assert_eq!(diags.len(), 1);
    assert!(diags[0].message.contains("blank line"));
}

#[test]
fn stacked_keywords_ok() {
    let input = "#+CAPTION: cap\n#+NAME: name\n| a | b |\n";
    assert!(check_it(input).is_empty());
}

#[test]
fn no_keywords() {
    assert!(check_it("text\n").is_empty());
}

#[test]
fn attr_keyword() {
    let diags = check_it("#+ATTR_LATEX: :width 0.5\n\n| a |\n");
    assert_eq!(diags.len(), 1);
}
