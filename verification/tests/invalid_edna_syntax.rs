#![allow(unused_imports)]
use org_tools_core::config::Config;
use org_tools_core::diagnostic::{Diagnostic, Severity};
use org_tools_core::rules::lint::invalid_edna_syntax::InvalidEdnaSyntax;
use org_tools_core::rules::{LintContext, LintRule};
use org_tools_core::source::SourceFile;

fn check_it(input: &str) -> Vec<Diagnostic> {
    let source = SourceFile::new("test.org", input.to_string());
    let config = Config::default();
    let ctx = LintContext::new(&source, &config);
    InvalidEdnaSyntax.check(&ctx)
}

#[test]
fn valid_blocker_ids() {
    assert!(check_it("* Task\n:PROPERTIES:\n:BLOCKER: ids(\"uuid-1\")\n:END:\n").is_empty());
}

#[test]
fn valid_blocker_structural() {
    assert!(check_it("* Task\n:PROPERTIES:\n:BLOCKER: previous-sibling\n:END:\n").is_empty());
}

#[test]
fn valid_trigger_action() {
    assert!(
        check_it("* Task\n:PROPERTIES:\n:TRIGGER: next-sibling todo!(\"DONE\")\n:END:\n")
            .is_empty()
    );
}

#[test]
fn invalid_unknown_finder() {
    let diags = check_it("* Task\n:PROPERTIES:\n:BLOCKER: nonexistent-thing\n:END:\n");
    assert_eq!(diags.len(), 1);
    assert!(diags[0].message.contains("unknown edna finder"));
}

#[test]
fn invalid_unknown_action() {
    let diags = check_it("* Task\n:PROPERTIES:\n:TRIGGER: fake-action!(\"arg\")\n:END:\n");
    assert_eq!(diags.len(), 1);
    assert!(diags[0].message.contains("unknown edna action"));
}

#[test]
fn invalid_unclosed_parens() {
    let diags = check_it("* Task\n:PROPERTIES:\n:BLOCKER: ids(\"abc\"\n:END:\n");
    assert!(!diags.is_empty());
}

#[test]
fn skips_protected_regions() {
    let input = "#+begin_src org\n:BLOCKER: nonexistent-thing\n#+end_src\n";
    assert!(check_it(input).is_empty());
}

#[test]
fn no_property_no_diagnostic() {
    assert!(check_it("* Task\n:PROPERTIES:\n:ID: abc\n:END:\n").is_empty());
}

#[test]
fn empty_blocker_value() {
    // Edge case: :BLOCKER: with empty value — no crash.
    assert!(check_it("* Task\n:PROPERTIES:\n:BLOCKER:\n:END:\n").is_empty());
}
