#![allow(unused_imports)]
use org_tools_core::config::Config;
use org_tools_core::diagnostic::{Diagnostic, Severity};
use org_tools_core::rules::lint::heading_level_gap::{has_startup_odd, HeadingLevelGap};
use org_tools_core::rules::{LintContext, LintRule};
use org_tools_core::source::SourceFile;

fn check_it(input: &str) -> Vec<Diagnostic> {
    let source = SourceFile::new("test.org", input.to_string());
    let config = Config::default();
    let ctx = LintContext::new(&source, &config);
    HeadingLevelGap.check(&ctx)
}

#[test]
fn no_gap() {
    let diags = check_it("* H1\n** H2\n*** H3\n");
    assert!(diags.is_empty());
}

#[test]
fn detects_gap() {
    let diags = check_it("* H1\n*** H3\n");
    assert_eq!(diags.len(), 1);
    assert!(diags[0].message.contains("missing level 2"));
}

#[test]
fn going_back_up_is_fine() {
    let diags = check_it("* H1\n** H2\n*** H3\n* H1 again\n");
    assert!(diags.is_empty());
}

#[test]
fn multiple_gaps() {
    let diags = check_it("* H1\n*** H3\n***** H5\n");
    assert_eq!(diags.len(), 2);
}

#[test]
fn no_headings() {
    let diags = check_it("just text\nno headings\n");
    assert!(diags.is_empty());
}

// --- #+STARTUP: odd ---

#[test]
fn odd_mode_valid_levels() {
    let diags = check_it("#+STARTUP: odd\n* H1\n*** H3\n***** H5\n");
    assert!(diags.is_empty());
}

#[test]
fn odd_mode_detects_gap() {
    // Level 1 → 5 skips level 3.
    let diags = check_it("#+STARTUP: odd\n* H1\n***** H5\n");
    assert_eq!(diags.len(), 1);
    assert!(diags[0].message.contains("missing level 3"));
}

#[test]
fn odd_mode_even_level_flagged() {
    let diags = check_it("#+STARTUP: odd\n* H1\n** H2\n");
    assert_eq!(diags.len(), 1);
    assert!(diags[0].message.contains("even heading level 2"));
}

#[test]
fn odd_mode_going_back_up_is_fine() {
    let diags = check_it("#+STARTUP: odd\n* H1\n*** H3\n***** H5\n* H1 again\n");
    assert!(diags.is_empty());
}

#[test]
fn oddeven_reverts_to_normal() {
    // oddeven explicitly reverts odd mode.
    let diags = check_it("#+STARTUP: odd\n#+STARTUP: oddeven\n* H1\n** H2\n*** H3\n");
    assert!(diags.is_empty());
}

#[test]
fn odd_in_combined_startup() {
    // odd can appear among other startup options.
    let diags = check_it("#+STARTUP: overview odd logdone\n* H1\n*** H3\n");
    assert!(diags.is_empty());
}

#[test]
fn no_startup_uses_normal_mode() {
    // Without #+STARTUP: odd, normal gap detection applies.
    let diags = check_it("* H1\n*** H3\n");
    assert_eq!(diags.len(), 1);
    assert!(diags[0].message.contains("missing level 2"));
}

#[test]
fn has_startup_odd_helper() {
    assert!(has_startup_odd("#+STARTUP: odd\n* H\n"));
    assert!(!has_startup_odd("#+STARTUP: overview\n* H\n"));
    assert!(!has_startup_odd(
        "#+STARTUP: odd\n#+STARTUP: oddeven\n* H\n"
    ));
    assert!(has_startup_odd("#+STARTUP: overview odd logdone\n* H\n"));
    assert!(!has_startup_odd("* H\n"));
}
