use org_tools_core::diagnostic::{Fix, Span};
use org_tools_core::formatter::apply_fixes;

#[test]
fn no_fixes() {
    assert_eq!(apply_fixes("hello world", &[]), "hello world");
}

#[test]
fn single_deletion() {
    let fixes = vec![Fix::new(Span::new(5, 8), String::new())];
    assert_eq!(apply_fixes("hello   world", &fixes), "helloworld");
}

#[test]
fn single_replacement() {
    let fixes = vec![Fix::new(Span::new(0, 5), "hi".to_string())];
    assert_eq!(apply_fixes("hello world", &fixes), "hi world");
}

#[test]
fn multiple_fixes() {
    let fixes = vec![
        Fix::new(Span::new(3, 5), String::new()),
        Fix::new(Span::new(8, 10), String::new()),
    ];
    assert_eq!(apply_fixes("abc  def  ghi", &fixes), "abcdefghi");
}

#[test]
fn fix_at_end() {
    let fixes = vec![Fix::new(Span::new(4, 7), String::new())];
    assert_eq!(apply_fixes("text   ", &fixes), "text");
}
