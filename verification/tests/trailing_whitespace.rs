#![allow(unused_imports)]
use org_tools_core::config::Config;
use org_tools_core::diagnostic::{Fix, Span};
use org_tools_core::formatter::apply_fixes;
use org_tools_core::rules::format::trailing_whitespace::TrailingWhitespace;
use org_tools_core::rules::{FormatContext, FormatRule};
use org_tools_core::source::SourceFile;

fn format_with_rule(input: &str) -> Vec<Fix> {
    let source = SourceFile::new("test.org", input.to_string());
    let config = Config::default();
    let ctx = FormatContext::new(&source, &config);
    TrailingWhitespace.format(&ctx)
}

#[test]
fn no_trailing_whitespace() {
    let fixes = format_with_rule("* Heading\nSome text\n");
    assert!(fixes.is_empty());
}

#[test]
fn removes_trailing_spaces() {
    let fixes = format_with_rule("* Heading   \nSome text  \n");
    assert_eq!(fixes.len(), 2);
    assert_eq!(fixes[0].span, Span::new(9, 12));
    assert_eq!(fixes[0].replacement, "");
    assert_eq!(fixes[1].span, Span::new(22, 24));
}

#[test]
fn removes_trailing_tabs() {
    let fixes = format_with_rule("text\t\t\n");
    assert_eq!(fixes.len(), 1);
    assert_eq!(fixes[0].span, Span::new(4, 6));
}

#[test]
fn handles_empty_file() {
    let fixes = format_with_rule("");
    assert!(fixes.is_empty());
}

#[test]
fn handles_no_trailing_newline() {
    let fixes = format_with_rule("text   ");
    assert_eq!(fixes.len(), 1);
    assert_eq!(fixes[0].span, Span::new(4, 7));
}
