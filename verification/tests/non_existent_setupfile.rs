use org_tools_core::config::Config;
use org_tools_core::diagnostic::Diagnostic;
use org_tools_core::rules::lint::non_existent_setupfile::NonExistentSetupfile;
use org_tools_core::rules::{LintContext, LintRule};
use org_tools_core::source::SourceFile;

fn check_it(input: &str) -> Vec<Diagnostic> {
    let source = SourceFile::new("test.org", input.to_string());
    let config = Config::default();
    let ctx = LintContext::new(&source, &config);
    NonExistentSetupfile.check(&ctx)
}

#[test]
fn no_setupfile() {
    assert!(check_it("#+TITLE: test\n").is_empty());
}

#[test]
fn missing_file() {
    let diags = check_it("#+SETUPFILE: ./nonexistent-setup.org\n");
    assert_eq!(diags.len(), 1);
    assert!(diags[0].message.contains("does not exist"));
}

#[test]
fn url_not_flagged() {
    assert!(check_it("#+SETUPFILE: https://example.com/setup.org\n").is_empty());
}

#[test]
fn quoted_path() {
    let diags = check_it("#+SETUPFILE: \"./nonexistent.org\"\n");
    assert_eq!(diags.len(), 1);
}

#[test]
fn setupfile_message_and_position() {
    let diags = check_it("text\n  #+setupfile:   \"./missing-x.org\"  \n");
    assert_eq!(diags.len(), 1);
    assert_eq!(diags[0].message, "#+SETUPFILE: './missing-x.org' does not exist");
    assert_eq!((diags[0].line, diags[0].column), (2, 1));
}
