#![allow(unused_imports)]
use org_tools_core::config::Config;
use org_tools_core::diagnostic::{Fix, Span};
use org_tools_core::formatter::apply_fixes;
use org_tools_core::rules::format::heading_spacing::HeadingSpacing;
use org_tools_core::rules::{FormatContext, FormatRule};
use org_tools_core::source::SourceFile;

fn format_it(input: &str) -> String {
    let source = SourceFile::new("test.org", input.to_string());
    let config = Config::default();
    let ctx = FormatContext::new(&source, &config);
    let fixes = HeadingSpacing.format(&ctx);
    apply_fixes(input, &fixes)
}

#[test]
fn adds_blank_line_before_heading() {
    assert_eq!(format_it("text\n* Heading\n"), "text\n\n* Heading\n");
}

#[test]
fn heading_spacing_already_correct() {
    let input = "text\n\n* Heading\n";
    assert_eq!(format_it(input), input);
}

#[test]
fn removes_extra_blank_lines() {
    assert_eq!(format_it("text\n\n\n\n* Heading\n"), "text\n\n* Heading\n");
}

#[test]
fn no_blank_between_consecutive_headings() {
    let input = "* Heading 1\n* Heading 2\n";
    assert_eq!(format_it(input), input);
}

#[test]
fn first_line_heading() {
    let input = "* Heading\ntext\n";
    assert_eq!(format_it(input), input);
}

#[test]
fn heading_after_content_under_heading() {
    assert_eq!(format_it("* H1\ntext\n* H2\n"), "* H1\ntext\n\n* H2\n");
}
