use org_tools_core::edna::{extract_dependency_ids, parse_edna, Action, Condition, EdnaExpr, Finder};

#[test]
fn parse_simple_finder() {
    let (exprs, errors) = parse_edna("next-sibling");
    assert!(errors.is_empty());
    assert_eq!(exprs, vec![EdnaExpr::Finder(Finder::NextSibling)]);
}

#[test]
fn parse_ids_finder() {
    let (exprs, errors) = parse_edna("ids(\"abc-123\" \"def-456\")");
    assert!(errors.is_empty());
    assert_eq!(
        exprs,
        vec![EdnaExpr::Finder(Finder::Ids(vec![
            "abc-123".to_string(),
            "def-456".to_string()
        ]))]
    );
}

#[test]
fn parse_ids_bare_words() {
    let (exprs, errors) = parse_edna("ids(abc-123 def-456)");
    assert!(errors.is_empty());
    assert_eq!(
        exprs,
        vec![EdnaExpr::Finder(Finder::Ids(vec![
            "abc-123".to_string(),
            "def-456".to_string()
        ]))]
    );
}

#[test]
fn parse_action() {
    let (exprs, errors) = parse_edna("todo!(\"DONE\")");
    assert!(errors.is_empty());
    assert_eq!(
        exprs,
        vec![EdnaExpr::Action(Action::Todo("DONE".to_string()))]
    );
}

#[test]
fn parse_condition() {
    let (exprs, errors) = parse_edna("todo-state?(\"DONE\")");
    assert!(errors.is_empty());
    assert_eq!(
        exprs,
        vec![EdnaExpr::Condition(Condition::TodoState(
            "DONE".to_string()
        ))]
    );
}

#[test]
fn parse_multiple_exprs() {
    let (exprs, errors) = parse_edna("ids(\"uuid-1\") todo!(\"DONE\")");
    assert!(errors.is_empty());
    assert_eq!(exprs.len(), 2);
    assert!(matches!(exprs[0], EdnaExpr::Finder(Finder::Ids(_))));
    assert!(matches!(exprs[1], EdnaExpr::Action(Action::Todo(_))));
}

#[test]
fn parse_set_property_action() {
    let (exprs, errors) = parse_edna("set-property!(\"KEY\" \"VALUE\")");
    assert!(errors.is_empty());
    assert_eq!(
        exprs,
        vec![EdnaExpr::Action(Action::SetProperty(
            "KEY".to_string(),
            "VALUE".to_string()
        ))]
    );
}

#[test]
fn parse_match_finder() {
    let (exprs, errors) = parse_edna("match(\"work\")");
    assert!(errors.is_empty());
    assert_eq!(
        exprs,
        vec![EdnaExpr::Finder(Finder::Match("work".to_string()))]
    );
}

#[test]
fn parse_if_block() {
    let (exprs, errors) =
        parse_edna("if todo-state?(\"DONE\") then next-sibling todo!(\"TODO\") endif");
    assert!(errors.is_empty(), "errors: {errors:?}");
    assert_eq!(exprs.len(), 1);
    match &exprs[0] {
        EdnaExpr::If { cond, then, else_ } => {
            assert!(matches!(
                cond.as_ref(),
                EdnaExpr::Condition(Condition::TodoState(_))
            ));
            assert_eq!(then.len(), 2);
            assert!(else_.is_empty());
        }
        _ => panic!("expected If expression"),
    }
}

#[test]
fn parse_if_else_block() {
    let (exprs, errors) = parse_edna(
        "if todo-state?(\"DONE\") then todo!(\"TODO\") else todo!(\"WAITING\") endif",
    );
    assert!(errors.is_empty(), "errors: {errors:?}");
    assert_eq!(exprs.len(), 1);
    match &exprs[0] {
        EdnaExpr::If {
            cond: _,
            then,
            else_,
        } => {
            assert_eq!(then.len(), 1);
            assert_eq!(else_.len(), 1);
        }
        _ => panic!("expected If expression"),
    }
}

#[test]
fn parse_unknown_finder_reports_error() {
    let (_, errors) = parse_edna("nonexistent-finder");
    assert_eq!(errors.len(), 1);
    assert!(errors[0].message.contains("unknown edna finder"));
}

#[test]
fn parse_unknown_action_reports_error() {
    let (_, errors) = parse_edna("nonexistent!(\"arg\")");
    assert_eq!(errors.len(), 1);
    assert!(errors[0].message.contains("unknown edna action"));
}

#[test]
fn parse_unknown_condition_reports_error() {
    let (_, errors) = parse_edna("nonexistent?(\"arg\")");
    assert_eq!(errors.len(), 1);
    assert!(errors[0].message.contains("unknown edna condition"));
}

#[test]
fn parse_unclosed_parens_reports_error() {
    let (_, errors) = parse_edna("ids(\"abc\"");
    assert_eq!(errors.len(), 1);
    assert!(errors[0].message.contains("unclosed"));
}

#[test]
fn parse_ids_empty_reports_error() {
    let (_, errors) = parse_edna("ids()");
    assert_eq!(errors.len(), 1);
    assert!(errors[0].message.contains("at least one argument"));
}

#[test]
fn parse_archive_action_no_args() {
    let (exprs, errors) = parse_edna("archive!");
    assert!(errors.is_empty());
    assert_eq!(exprs, vec![EdnaExpr::Action(Action::Archive)]);
}

#[test]
fn parse_self_finder() {
    let (exprs, errors) = parse_edna("self");
    assert!(errors.is_empty());
    assert_eq!(exprs, vec![EdnaExpr::Finder(Finder::Self_)]);
}

#[test]
fn parse_structural_finders() {
    for keyword in &[
        "parent",
        "ancestors",
        "children",
        "descendants",
        "siblings",
        "first-child",
    ] {
        let (exprs, errors) = parse_edna(keyword);
        assert!(errors.is_empty(), "error parsing {keyword}: {errors:?}");
        assert_eq!(exprs.len(), 1, "wrong count for {keyword}");
        assert!(
            matches!(exprs[0], EdnaExpr::Finder(_)),
            "not a finder for {keyword}"
        );
    }
}

#[test]
fn parse_has_property_condition() {
    let (exprs, errors) = parse_edna("has-property?(\"COUNT\" \"3\")");
    assert!(errors.is_empty());
    assert_eq!(
        exprs,
        vec![EdnaExpr::Condition(Condition::HasProperty(
            "COUNT".to_string(),
            "3".to_string()
        ))]
    );
}

#[test]
fn parse_complex_blocker() {
    let (exprs, errors) = parse_edna("ids(\"task-1\" \"task-2\") todo-state?(\"DONE\")");
    assert!(errors.is_empty());
    assert_eq!(exprs.len(), 2);
}

#[test]
fn extract_ids_from_blocker() {
    let ids = extract_dependency_ids("ids(\"abc\" \"def\") todo-state?(\"DONE\")");
    assert_eq!(ids, vec!["abc", "def"]);
}

#[test]
fn extract_ids_no_ids_finder() {
    let ids = extract_dependency_ids("next-sibling");
    assert!(ids.is_empty());
}

#[test]
fn parse_keeps_expressions_after_an_error() {
    let (exprs, errors) = parse_edna("bogus self");
    assert_eq!(exprs, vec![EdnaExpr::Finder(Finder::Self_)]);
    assert_eq!(errors.len(), 1);
    assert!(errors[0].message.contains("unknown edna finder"));
}
