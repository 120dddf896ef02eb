#![allow(unused_imports)]
use org_tools_core::config::Config;
use org_tools_core::diagnostic::{Diagnostic, Severity};
use org_tools_core::rules::lint::invalid_image_alignment::InvalidImageAlignment;
use org_tools_core::rules::{LintContext, LintRule};
use org_tools_core::source::SourceFile;

fn check_it(input: &str) -> Vec<Diagnostic> {
    let source = SourceFile::new("test.org", input.to_string());
    let config = Config::default();
    let ctx = LintContext::new(&source, &config);
    InvalidImageAlignment.check(&ctx)
}

#[test]
fn valid_align() {
    assert!(check_it("#+ATTR_ORG: :align center\n").is_empty());
}

#[test]
fn valid_center() {
    assert!(check_it("#+ATTR_ORG: :center t\n").is_empty());
}

#[test]
fn invalid_align() {
    let diags = check_it("#+ATTR_ORG: :align middle\n");
    assert_eq!(diags.len(), 1);
    assert!(diags[0].message.contains("middle"));
}

#[test]
fn invalid_center() {
    let diags = check_it("#+ATTR_ORG: :center yes\n");
    assert_eq!(diags.len(), 1);
}

#[test]
fn no_attr_org() {
    assert!(check_it("#+ATTR_LATEX: :width 0.5\n").is_empty());
}
