#![allow(unused_imports)]
use org_tools_core::config::Config;
use org_tools_core::diagnostic::{Diagnostic, Severity};
use org_tools_core::rules::lint::orphaned_affiliated_keywords::OrphanedAffiliatedKeywords;
use org_tools_core::rules::{LintContext, LintRule};
use org_tools_core::source::SourceFile;

fn check_it(input: &str) -> Vec<Diagnostic> {
    let source = SourceFile::new("test.org", input.to_string());
    let config = Config::default();
    let ctx = LintContext::new(&source, &config);
    OrphanedAffiliatedKeywords.check(&ctx)
}

#[test]
fn properly_attached_to_table() {
    assert!(check_it("#+CAPTION: My table\n| a | b |\n").is_empty());
}

#[test]
fn properly_attached_to_block() {
    assert!(check_it("#+NAME: my-code\n#+BEGIN_SRC python\ncode\n#+END_SRC\n").is_empty());
}

#[test]
fn stacked_affiliated_keywords() {
    let input = "#+CAPTION: Caption\n#+NAME: name\n#+ATTR_LATEX: :width 0.5\n| a | b |\n";
    assert!(check_it(input).is_empty());
}

#[test]
fn orphaned_by_blank_line() {
    let diags = check_it("#+CAPTION: orphaned\n\n| a | b |\n");
    assert_eq!(diags.len(), 1);
    assert!(diags[0].message.contains("blank line"));
}

#[test]
fn orphaned_by_text() {
    let diags = check_it("#+CAPTION: orphaned\nSome text.\n");
    assert_eq!(diags.len(), 1);
    assert!(diags[0].message.contains("not followed by"));
}

#[test]
fn orphaned_at_end_of_file() {
    // Trailing newline creates an empty last line, so this reports "blank line".
    let diags = check_it("#+NAME: orphaned\n");
    assert_eq!(diags.len(), 1);
}

#[test]
fn orphaned_at_end_of_file_no_newline() {
    let diags = check_it("#+NAME: orphaned");
    assert_eq!(diags.len(), 1);
    assert!(diags[0].message.contains("end of file"));
}
