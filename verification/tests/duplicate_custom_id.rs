#![allow(unused_imports)]
use org_tools_core::config::Config;
use org_tools_core::diagnostic::{Diagnostic, Severity};
use org_tools_core::rules::lint::duplicate_custom_id::DuplicateCustomId;
use org_tools_core::rules::{LintContext, LintRule};
use org_tools_core::source::SourceFile;

fn check_it(input: &str) -> Vec<Diagnostic> {
    let source = SourceFile::new("test.org", input.to_string());
    let config = Config::default();
    let ctx = LintContext::new(&source, &config);
    DuplicateCustomId.check(&ctx)
}

#[test]
fn no_duplicates() {
    let input = ":PROPERTIES:\n:CUSTOM_ID: a\n:END:\n:PROPERTIES:\n:CUSTOM_ID: b\n:END:\n";
    assert!(check_it(input).is_empty());
}

#[test]
fn detects_duplicate() {
    let input =
        ":PROPERTIES:\n:CUSTOM_ID: same\n:END:\n:PROPERTIES:\n:CUSTOM_ID: same\n:END:\n";
    let diags = check_it(input);
    assert_eq!(diags.len(), 1);
    assert!(diags[0].message.contains("duplicate CUSTOM_ID"));
    assert!(diags[0].message.contains("same"));
}

#[test]
fn no_custom_ids() {
    assert!(check_it("* Heading\ntext\n").is_empty());
}
