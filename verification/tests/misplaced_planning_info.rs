#![allow(unused_imports)]
use org_tools_core::config::Config;
use org_tools_core::diagnostic::{Diagnostic, Severity};
use org_tools_core::rules::lint::misplaced_planning_info::MisplacedPlanningInfo;
use org_tools_core::rules::{LintContext, LintRule};
use org_tools_core::source::SourceFile;

fn check_it(input: &str) -> Vec<Diagnostic> {
    let source = SourceFile::new("test.org", input.to_string());
    let config = Config::default();
    let ctx = LintContext::new(&source, &config);
    MisplacedPlanningInfo.check(&ctx)
}

#[test]
fn valid_after_heading() {
    assert!(check_it("* TODO Task\nSCHEDULED: <2024-01-15 Mon>\n").is_empty());
}

#[test]
fn valid_multiple_planning() {
    let input = "* TODO Task\nSCHEDULED: <2024-01-15 Mon>\nDEADLINE: <2024-02-01 Thu>\n";
    assert!(check_it(input).is_empty());
}

#[test]
fn misplaced_after_text() {
    let diags = check_it("Some text.\nSCHEDULED: <2024-01-15 Mon>\n");
    assert_eq!(diags.len(), 1);
}

#[test]
fn misplaced_after_blank_line() {
    let diags = check_it("* TODO Task\n\nSCHEDULED: <2024-01-15 Mon>\n");
    assert_eq!(diags.len(), 1);
}

#[test]
fn no_planning_lines() {
    assert!(check_it("* Heading\ntext\n").is_empty());
}
