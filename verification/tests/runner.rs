use org_tools_core::config::Config;
use org_tools_core::runner::{FormatRuleKind, LintRuleKind, Runner};
use org_tools_core::source::SourceFile;
use std::collections::HashSet;

#[test]
fn lint_rule_ids_are_unique() {
    let runner = Runner::default();
    let mut seen = HashSet::new();
    for rule in &runner.lint_rules {
        let id = rule.id();
        assert!(seen.insert(id), "Duplicate lint rule ID: {id} (rule: {})", rule.name());
    }
}

#[test]
fn lint_rule_names_are_unique() {
    let runner = Runner::default();
    let mut seen = HashSet::new();
    for rule in &runner.lint_rules {
        let name = rule.name();
        assert!(seen.insert(name), "Duplicate lint rule name: {name} (id: {})", rule.id());
    }
}

#[test]
fn format_rule_ids_are_unique() {
    let runner = Runner::default();
    let mut seen = HashSet::new();
    for rule in &runner.format_rules {
        let id = rule.id();
        assert!(seen.insert(id), "Duplicate format rule ID: {id} (rule: {})", rule.name());
    }
}

#[test]
fn runner_selects_format_rules_by_config() {
    let mut config = Config::default();
    config.format.trailing_whitespace = false;
    config.format.heading_blank_lines = true;
    let runner = Runner::new(config);
    assert_eq!(
        runner.format_rules,
        vec![
            FormatRuleKind::HeadingSpacing,
            FormatRuleKind::TableFormatter,
            FormatRuleKind::KeywordSpacing,
            FormatRuleKind::ListFormat,
            FormatRuleKind::TimestampSpacing,
        ]
    );
    assert_eq!(runner.lint_rules.len(), 15);
    assert_eq!(runner.lint_rules[0], LintRuleKind::UnclosedBlock);
}

#[test]
fn runner_check_reports_sorted_diagnostics() {
    let source = SourceFile::new("t.org", "* A \n#+BEGIN_SRC\n+ x\n".to_string());
    let runner = Runner::default();
    let diags = runner.check(&source);
    let keys: Vec<(usize, usize, &str)> = diags.iter().map(|d| (d.line, d.column, d.rule_id)).collect();
    assert_eq!(keys, vec![(1, 4, "F001"), (2, 1, "E001"), (3, 1, "F008")]);
    assert_eq!(diags[0].message, "Remove trailing whitespace from all lines: would reformat");
    assert!(diags[0].fix.is_some());
}

#[test]
fn runner_format_applies_fixes_and_lints_result() {
    let source = SourceFile::new("t.org", "* A  \n+ item\n#+TBLFM: $1=1\n".to_string());
    let runner = Runner::default();
    let (text, diags) = runner.format(&source);
    assert_eq!(text, "* A\n- item\n#+TBLFM: $1=1\n");
    assert_eq!(diags.len(), 1);
    assert_eq!(diags[0].rule_id, "W034");
    let mut config = Config::default();
    config.lint.disabled_rules = vec!["invalid-table-formula".to_string()];
    let (_, diags) = Runner::new(config).format(&source);
    assert!(diags.is_empty());
}
