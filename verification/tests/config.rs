use org_tools_core::config::Config;

#[test]
fn default_config_matches_emacs() {
    let config = Config::default();
    // Emacs does not enforce blank line limits or heading spacing.
    assert!(!config.format.blank_lines);
    assert!(!config.format.heading_blank_lines);
    // But trailing whitespace and table formatting are on.
    assert!(config.format.trailing_whitespace);
    assert!(config.format.table_format);
    assert!(config.format.property_drawer_align);
}

#[test]
fn rule_disabled_by_name_or_id() {
    let mut config = Config::default();
    config.lint.disabled_rules = vec!["heading-level-gap".to_string(), "e001".to_string()];
    assert!(config.is_rule_disabled("W001", "heading-level-gap"));
    assert!(config.is_rule_disabled("E001", "unclosed-block"));
    assert!(!config.is_rule_disabled("W002", "Heading-Level-Gap"));
}

#[test]
fn default_cache_config() {
    let config = Config::default();
    assert!(!config.cache.enabled);
    assert!(config.cache.path.is_none());
    assert_eq!(config.cache.threshold_ms, 500);
    assert_eq!(config.format.max_consecutive_blank_lines, 1);
    assert_eq!(config.format.heading_blank_lines_before, 1);
}
