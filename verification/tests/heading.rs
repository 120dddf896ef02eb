use org_tools_core::rules::heading;
use org_tools_core::rules::heading::parse_heading;

#[test]
fn simple_heading() {
    let parts = parse_heading("* Hello").unwrap();
    assert_eq!(parts.level, 1);
    assert_eq!(parts.keyword.as_deref(), None);
    assert_eq!(parts.priority, None);
    assert_eq!(parts.title, "Hello");
    assert!(parts.tags.is_empty());
}

#[test]
fn heading_with_todo() {
    let parts = parse_heading("** TODO Write tests").unwrap();
    assert_eq!(parts.level, 2);
    assert_eq!(parts.keyword.as_deref(), Some("TODO"));
    assert_eq!(parts.title, "Write tests");
}

#[test]
fn heading_with_priority() {
    let parts = parse_heading("* TODO [#A] Urgent task").unwrap();
    assert_eq!(parts.keyword.as_deref(), Some("TODO"));
    assert_eq!(parts.priority, Some('A'));
    assert_eq!(parts.title, "Urgent task");
}

#[test]
fn heading_with_tags() {
    let parts = parse_heading("* Heading :tag1:tag2:").unwrap();
    assert_eq!(parts.title, "Heading");
    assert_eq!(parts.tags, vec!["tag1", "tag2"]);
}

#[test]
fn heading_with_everything() {
    let parts = parse_heading("*** DONE [#B] Complete task :work:done:").unwrap();
    assert_eq!(parts.level, 3);
    assert_eq!(parts.keyword.as_deref(), Some("DONE"));
    assert_eq!(parts.priority, Some('B'));
    assert_eq!(parts.title, "Complete task");
    assert_eq!(parts.tags, vec!["work", "done"]);
}

#[test]
fn not_a_heading() {
    assert!(parse_heading("not a heading").is_none());
    assert!(parse_heading("*bold text*").is_none());
}

#[test]
fn heading_level() {
    assert_eq!(heading::heading_level("* H"), Some(1));
    assert_eq!(heading::heading_level("*** H"), Some(3));
    assert_eq!(heading::heading_level("*not"), None);
}

#[test]
fn empty_heading() {
    let parts = parse_heading("*").unwrap();
    assert_eq!(parts.level, 1);
    assert_eq!(parts.title, "");
}

#[test]
fn heading_with_priority_only() {
    let parts = parse_heading("* [#C]").unwrap();
    assert_eq!(parts.priority, Some('C'));
    assert_eq!(parts.title, "");
}
