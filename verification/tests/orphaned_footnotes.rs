#![allow(unused_imports)]
use org_tools_core::config::Config;
use org_tools_core::diagnostic::{Diagnostic, Severity};
use org_tools_core::rules::lint::orphaned_footnotes::OrphanedFootnotes;
use org_tools_core::rules::{LintContext, LintRule};
use org_tools_core::source::SourceFile;

fn check_it(input: &str) -> Vec<Diagnostic> {
    let source = SourceFile::new("test.org", input.to_string());
    let config = Config::default();
    let ctx = LintContext::new(&source, &config);
    OrphanedFootnotes.check(&ctx)
}

#[test]
fn matched_footnotes() {
    let input = "Text with [fn:1] reference.\n\n[fn:1] The definition.\n";
    assert!(check_it(input).is_empty());
}

#[test]
fn unreferenced_definition() {
    let input = "[fn:unused] This footnote is never referenced.\n";
    let diags = check_it(input);
    assert_eq!(diags.len(), 1);
    assert!(diags[0].message.contains("defined but never referenced"));
}

#[test]
fn undefined_reference() {
    let input = "Text with [fn:missing] reference.\n";
    let diags = check_it(input);
    assert_eq!(diags.len(), 1);
    assert!(diags[0].message.contains("referenced but never defined"));
}

#[test]
fn inline_footnote_not_orphaned() {
    // Inline footnotes [fn:label:text] are self-contained — they provide
    // both the definition and reference. No diagnostic should be emitted.
    let input = "Text with [fn:x:inline definition] here.\n";
    let diags = check_it(input);
    assert!(diags.is_empty());
}

#[test]
fn footnotes_in_code_block_ignored() {
    let input = "#+BEGIN_SRC org\n[fn:inside] Not a real footnote.\nText [fn:also] not real.\n#+END_SRC\n";
    let diags = check_it(input);
    assert!(diags.is_empty());
}

#[test]
fn no_footnotes() {
    assert!(check_it("just text\n").is_empty());
}

#[test]
fn multiple_refs_one_def() {
    let input = "Ref [fn:a] and again [fn:a].\n\n[fn:a] Definition.\n";
    assert!(check_it(input).is_empty());
}
