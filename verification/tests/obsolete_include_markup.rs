#![allow(unused_imports)]
use org_tools_core::config::Config;
use org_tools_core::diagnostic::{Diagnostic, Severity};
use org_tools_core::rules::lint::obsolete_include_markup::ObsoleteIncludeMarkup;
use org_tools_core::rules::{LintContext, LintRule};
use org_tools_core::source::SourceFile;

fn check_it(input: &str) -> Vec<Diagnostic> {
    let source = SourceFile::new("test.org", input.to_string());
    let config = Config::default();
    let ctx = LintContext::new(&source, &config);
    ObsoleteIncludeMarkup.check(&ctx)
}

#[test]
fn valid_include() {
    assert!(check_it("#+INCLUDE: \"file.org\"\n").is_empty());
}

#[test]
fn valid_export_syntax() {
    assert!(check_it("#+INCLUDE: \"file.org\" export html\n").is_empty());
}

#[test]
fn obsolete_html() {
    let diags = check_it("#+INCLUDE: \"file.org\" HTML\n");
    assert_eq!(diags.len(), 1);
    assert!(diags[0].message.contains("export html"));
}

#[test]
fn valid_src_include() {
    assert!(check_it("#+INCLUDE: \"file.py\" src python\n").is_empty());
}
