#![allow(unused_imports)]
use org_tools_core::config::Config;
use org_tools_core::diagnostic::{Fix, Span};
use org_tools_core::formatter::apply_fixes;
use org_tools_core::rules::format::timestamp_spacing::TimestampSpacing;
use org_tools_core::rules::{FormatContext, FormatRule};
use org_tools_core::source::SourceFile;

fn format_it(input: &str) -> String {
    let source = SourceFile::new("test.org", input.to_string());
    let config = Config::default();
    let ctx = FormatContext::new(&source, &config);
    let fixes = TimestampSpacing.format(&ctx);
    apply_fixes(input, &fixes)
}

#[test]
fn timestamp_spacing_already_correct() {
    assert_eq!(
        format_it("SCHEDULED: <2024-01-15 Mon>\n"),
        "SCHEDULED: <2024-01-15 Mon>\n"
    );
}

#[test]
fn timestamp_spacing_no_space() {
    assert_eq!(
        format_it("SCHEDULED:<2024-01-15 Mon>\n"),
        "SCHEDULED: <2024-01-15 Mon>\n"
    );
}

#[test]
fn timestamp_spacing_extra_spaces() {
    assert_eq!(
        format_it("SCHEDULED:   <2024-01-15 Mon>\n"),
        "SCHEDULED: <2024-01-15 Mon>\n"
    );
}

#[test]
fn deadline() {
    assert_eq!(
        format_it("DEADLINE:  <2024-02-01 Thu>\n"),
        "DEADLINE: <2024-02-01 Thu>\n"
    );
}

#[test]
fn both_on_same_line() {
    assert_eq!(
        format_it("SCHEDULED:  <2024-01-15 Mon> DEADLINE:  <2024-02-01 Thu>\n"),
        "SCHEDULED: <2024-01-15 Mon> DEADLINE: <2024-02-01 Thu>\n"
    );
}

#[test]
fn not_a_planning_line() {
    let input = "regular text\n";
    assert_eq!(format_it(input), input);
}
