#![allow(unused_imports)]
use org_tools_core::config::Config;
use org_tools_core::diagnostic::{Diagnostic, Severity};
use org_tools_core::rules::lint::unclosed_block::UnclosedBlock;
use org_tools_core::rules::{LintContext, LintRule};
use org_tools_core::source::SourceFile;

fn check_it(input: &str) -> Vec<Diagnostic> {
    let source = SourceFile::new("test.org", input.to_string());
    let config = Config::default();
    let ctx = LintContext::new(&source, &config);
    UnclosedBlock.check(&ctx)
}

#[test]
fn matched_blocks() {
    let diags = check_it("#+BEGIN_SRC python\ncode\n#+END_SRC\n");
    assert!(diags.is_empty());
}

#[test]
fn unclosed_begin() {
    let diags = check_it("#+BEGIN_SRC python\ncode\n");
    assert_eq!(diags.len(), 1);
    assert!(diags[0].message.contains("without matching #+END_SRC"));
}

#[test]
fn unmatched_end() {
    let diags = check_it("code\n#+END_SRC\n");
    assert_eq!(diags.len(), 1);
    assert!(diags[0].message.contains("without matching #+BEGIN_SRC"));
}

#[test]
fn nested_blocks() {
    let input = "#+BEGIN_QUOTE\n#+BEGIN_SRC python\ncode\n#+END_SRC\n#+END_QUOTE\n";
    let diags = check_it(input);
    assert!(diags.is_empty());
}

#[test]
fn multiple_unclosed() {
    let diags = check_it("#+BEGIN_SRC\n#+BEGIN_EXAMPLE\n");
    assert_eq!(diags.len(), 2);
}

#[test]
fn case_insensitive() {
    let diags = check_it("#+begin_src python\ncode\n#+end_src\n");
    assert!(diags.is_empty());
}
