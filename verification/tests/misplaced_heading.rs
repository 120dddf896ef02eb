#![allow(unused_imports)]
use org_tools_core::config::Config;
use org_tools_core::diagnostic::{Diagnostic, Severity};
use org_tools_core::rules::lint::misplaced_heading::MisplacedHeading;
use org_tools_core::rules::{LintContext, LintRule};
use org_tools_core::source::SourceFile;

fn check_it(input: &str) -> Vec<Diagnostic> {
    let source = SourceFile::new("test.org", input.to_string());
    let config = Config::default();
    let ctx = LintContext::new(&source, &config);
    MisplacedHeading.check(&ctx)
}

#[test]
fn normal_heading() {
    assert!(check_it("* Heading\n").is_empty());
}

#[test]
fn normal_text() {
    assert!(check_it("just text\n").is_empty());
}

#[test]
fn bold_text_not_flagged() {
    // *bold* in text is not a heading.
    assert!(check_it("some *bold* text\n").is_empty());
}

#[test]
fn no_false_positive_on_stars_in_text() {
    assert!(check_it("rating: ****\n").is_empty());
}
