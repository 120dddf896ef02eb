#![allow(unused_imports)]
use org_tools_core::config::Config;
use org_tools_core::diagnostic::{Diagnostic, Severity};
use org_tools_core::rules::lint::file_application::FileApplication;
use org_tools_core::rules::{LintContext, LintRule};
use org_tools_core::source::SourceFile;

fn check_it(input: &str) -> Vec<Diagnostic> {
    let source = SourceFile::new("test.org", input.to_string());
    let config = Config::default();
    let ctx = LintContext::new(&source, &config);
    FileApplication.check(&ctx)
}

#[test]
fn normal_file_link() {
    assert!(check_it("[[file:path/to/file]]\n").is_empty());
}

#[test]
fn deprecated_file_sys() {
    let diags = check_it("[[file+sys:path/to/file]]\n");
    assert_eq!(diags.len(), 1);
}

#[test]
fn deprecated_file_emacs() {
    let diags = check_it("[[file+emacs:path/to/file]]\n");
    assert_eq!(diags.len(), 1);
}

#[test]
fn no_links() {
    assert!(check_it("text\n").is_empty());
}
