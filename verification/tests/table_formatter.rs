use org_tools_core::config::Config;
use org_tools_core::formatter::apply_fixes;
use org_tools_core::rules::format::table_formatter::TableFormatter;
use org_tools_core::rules::{FormatContext, FormatRule};
use org_tools_core::source::SourceFile;

fn format_it(input: &str) -> String {
    let source = SourceFile::new("test.org", input.to_string());
    let config = Config::default();
    let ctx = FormatContext::new(&source, &config);
    let fixes = TableFormatter.format(&ctx);
    apply_fixes(input, &fixes)
}

#[test]
fn aligns_simple_table() {
    let input = "| a | bb | ccc |\n| dd | e | f |\n";
    let expected = "| a  | bb | ccc |\n| dd | e  | f   |\n";
    assert_eq!(format_it(input), expected);
}

#[test]
fn normalizes_separator() {
    let input = "| Name | Age |\n|---+---|\n| Alice | 30 |\n";
    // Age column is numeric (header excluded from check), so 30 is right-aligned.
    let expected = "| Name  | Age |\n|-------+-----|\n| Alice |  30 |\n";
    assert_eq!(format_it(input), expected);
}

#[test]
fn right_aligns_numbers() {
    let input = "| Item | Price |\n|---+---|\n| Apple | 1 |\n| Banana | 250 |\n";
    let expected = "| Item   | Price |\n|--------+-------|\n| Apple  |     1 |\n| Banana |   250 |\n";
    assert_eq!(format_it(input), expected);
}

#[test]
fn mixed_column_left_aligns() {
    // Column 2 has both text and numbers → left-aligned.
    let input = "| a | b |\n| c | 5 |\n";
    let expected = "| a | b |\n| c | 5 |\n";
    assert_eq!(format_it(input), expected);
}

#[test]
fn handles_uneven_columns() {
    let input = "| a | b |\n| cc |\n";
    let expected = "| a  | b |\n| cc |   |\n";
    assert_eq!(format_it(input), expected);
}

#[test]
fn preserves_text_around_table() {
    let input = "before\n| a | b |\n| c | d |\nafter\n";
    let expected = "before\n| a | b |\n| c | d |\nafter\n";
    assert_eq!(format_it(input), expected);
}

#[test]
fn already_formatted() {
    let input = "| a | b |\n| c | d |\n";
    assert_eq!(format_it(input), input);
}

#[test]
fn empty_cells() {
    let input = "| a |  |\n|  | b |\n";
    let expected = "| a |   |\n|   | b |\n";
    assert_eq!(format_it(input), expected);
}

#[test]
fn no_table() {
    let input = "just text\n";
    assert_eq!(format_it(input), input);
}

#[test]
fn multiple_tables() {
    let input = "| a | bb |\ntext\n| ccc | d |\n";
    let expected = "| a | bb |\ntext\n| ccc | d |\n";
    assert_eq!(format_it(input), expected);
}
