use org_tools_core::config::Config;
use org_tools_core::diagnostic::Diagnostic;
use org_tools_core::rules::lint::deprecated_category_setup::DeprecatedCategorySetup;
use org_tools_core::rules::{LintContext, LintRule};
use org_tools_core::source::SourceFile;

fn check_it(input: &str) -> Vec<Diagnostic> {
    let source = SourceFile::new("test.org", input.to_string());
    let config = Config::default();
    let ctx = LintContext::new(&source, &config);
    DeprecatedCategorySetup.check(&ctx)
}

#[test]
fn single_category() {
    assert!(check_it("#+CATEGORY: test\n").is_empty());
}

#[test]
fn multiple_categories() {
    let diags = check_it("#+CATEGORY: first\n#+CATEGORY: second\n");
    assert_eq!(diags.len(), 1);
}

#[test]
fn no_category() {
    assert!(check_it("#+TITLE: test\n").is_empty());
}
