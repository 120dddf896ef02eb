use org_tools_core::config::Config;
use org_tools_core::formatter::apply_fixes;
use org_tools_core::rules::format::list_format::ListFormat;
use org_tools_core::rules::list::{parse_list_item, ListMarker};
use org_tools_core::rules::{FormatContext, FormatRule};
use org_tools_core::source::SourceFile;

fn format_it(input: &str) -> String {
    let source = SourceFile::new("test.org", input.to_string());
    let config = Config::default();
    let ctx = FormatContext::new(&source, &config);
    let fixes = ListFormat.format(&ctx);
    apply_fixes(input, &fixes)
}

#[test]
fn dash_unchanged() {
    assert_eq!(format_it("- Item\n"), "- Item\n");
}

#[test]
fn plus_to_dash() {
    assert_eq!(format_it("+ Item\n"), "- Item\n");
}

#[test]
fn star_to_dash() {
    assert_eq!(format_it("  * Item\n"), "  - Item\n");
}

#[test]
fn lowercase_checkbox() {
    assert_eq!(format_it("- [x] Done\n"), "- [X] Done\n");
}

#[test]
fn uppercase_checkbox_unchanged() {
    assert_eq!(format_it("- [X] Done\n"), "- [X] Done\n");
}

#[test]
fn ordered_list_unchanged() {
    assert_eq!(format_it("1. First\n"), "1. First\n");
}

#[test]
fn nested_plus() {
    assert_eq!(format_it("  + Nested\n"), "  - Nested\n");
}

#[test]
fn in_code_block_unchanged() {
    let input = "#+BEGIN_SRC org\n+ Item\n#+END_SRC\n";
    assert_eq!(format_it(input), input);
}

#[test]
fn not_a_list() {
    assert_eq!(format_it("just text\n"), "just text\n");
}

#[test]
fn list_item_parts() {
    let item = parse_list_item("  3) [x]  Task text").unwrap();
    assert_eq!(item.indent, 2);
    assert_eq!(item.marker, ListMarker::OrderedParen(3));
    assert_eq!(item.checkbox, Some('x'));
    assert_eq!(item.content, "Task text");
    assert!(parse_list_item("* Heading").is_none());
    assert!(parse_list_item("-no space").is_none());
    assert_eq!(parse_list_item("-").unwrap().content, "");
    assert_eq!(parse_list_item("+ [?] odd").unwrap().checkbox, None);
}

#[test]
fn list_star_checkbox_and_crlf() {
    assert_eq!(format_it("  * [x] Done\r\n"), "  - [X] Done\r\n");
    assert_eq!(format_it("+\n"), "-\n");
    assert_eq!(format_it("2. [x] Kept\n"), "2. [x] Kept\n");
}
