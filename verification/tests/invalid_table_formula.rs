use org_tools_core::config::Config;
use org_tools_core::diagnostic::Diagnostic;
use org_tools_core::rules::lint::invalid_table_formula::InvalidTableFormula;
use org_tools_core::rules::{LintContext, LintRule};
use org_tools_core::source::SourceFile;

fn check_it(input: &str) -> Vec<Diagnostic> {
    let source = SourceFile::new("test.org", input.to_string());
    let config = Config::default();
    let ctx = LintContext::new(&source, &config);
    InvalidTableFormula.check(&ctx)
}

#[test]
fn valid_formula_after_table() {
    let diags = check_it("| a | 1 |\n| b | 2 |\n#+TBLFM: $2=$1+1\n");
    assert!(diags.is_empty());
}

#[test]
fn orphaned_tblfm() {
    let diags = check_it("Some text\n#+TBLFM: $2=$1+1\n");
    assert_eq!(diags.len(), 1);
    assert!(diags[0].message.contains("not attached"));
}

#[test]
fn tblfm_after_blank_line_from_table() {
    // A blank line between table and TBLFM means it's orphaned.
    let diags = check_it("| a | b |\n\n#+TBLFM: $2=$1\n");
    assert_eq!(diags.len(), 1);
    assert!(diags[0].message.contains("not attached"));
}

#[test]
fn multiple_tblfm_lines() {
    let diags = check_it("| a | b |\n#+TBLFM: $1=1\n#+TBLFM: $2=2\n");
    assert!(diags.is_empty());
}

#[test]
fn formula_missing_equals() {
    let diags = check_it("| a | b |\n#+TBLFM: $2\n");
    assert_eq!(diags.len(), 1);
    assert!(diags[0].message.contains("missing '='"));
}

#[test]
fn formula_empty_target() {
    let diags = check_it("| a | b |\n#+TBLFM: =1+2\n");
    assert_eq!(diags.len(), 1);
    assert!(diags[0].message.contains("empty target"));
}

#[test]
fn formula_with_row_col_ref() {
    let diags = check_it("| a | b |\n#+TBLFM: @2$3=vmean(@I..@II)\n");
    assert!(diags.is_empty());
}

#[test]
fn formula_with_special_refs() {
    let diags = check_it("| a | b |\n#+TBLFM: $>=vsum($1..$>>)\n");
    assert!(diags.is_empty());
}

#[test]
fn formula_with_multiple_assignments() {
    let diags = check_it("| a | b | c |\n#+TBLFM: $2=$1+1::$3=$1*2\n");
    assert!(diags.is_empty());
}

#[test]
fn formula_in_code_block_ignored() {
    let input = "#+BEGIN_SRC org\n#+TBLFM: invalid\n#+END_SRC\n";
    let diags = check_it(input);
    assert!(diags.is_empty());
}

#[test]
fn column_zero_invalid() {
    let diags = check_it("| a | b |\n#+TBLFM: $0=1\n");
    assert_eq!(diags.len(), 1);
    assert!(diags[0].message.contains("$0"));
}

#[test]
fn invalid_row_ref() {
    let diags = check_it("| a | b |\n#+TBLFM: @abc$1=1\n");
    assert_eq!(diags.len(), 1);
    assert!(diags[0].message.contains("invalid row"));
}

#[test]
fn named_constant_in_formula() {
    // Named constants are valid references.
    let diags = check_it("#+CONSTANTS: pi=3.14\n| a | b |\n#+TBLFM: $2=$pi\n");
    assert!(diags.is_empty());
}

#[test]
fn tblfm_messages_and_positions() {
    let diags = check_it("| a |\n#+TBLFM: $1=1:: @x$2=3 :: $=4\n\n#+tblfm: @2$=1\n");
    let msgs: Vec<&str> = diags.iter().map(|d| d.message.as_str()).collect();
    assert_eq!(
        msgs,
        vec![
            "formula target: invalid row reference '@x'",
            "formula target: missing column number after '$'",
            "#+TBLFM: is not attached to a table",
            "formula target: missing column number after '$'",
        ]
    );
    assert_eq!((diags[0].line, diags[0].column), (2, 1));
    assert_eq!(diags[2].line, 4);
    assert_eq!(diags[0].rule_id, "W034");
}
