use org_tools_core::document::OrgDocument;
use org_tools_core::entry::{add_entry, NewEntryOpts};
use org_tools_core::source::SourceFile;

fn make_doc(content: &str) -> (SourceFile, OrgDocument) {
    let source = SourceFile::new("test.org", content.to_string());
    let doc = OrgDocument::from_source(&source);
    (source, doc)
}

#[test]
fn add_entry_to_empty_file() {
    let source = SourceFile::new("test.org", "".to_string());
    let doc = OrgDocument::from_source(&source);
    let result = add_entry(
        &source,
        &doc,
        None,
        &NewEntryOpts {
            title: "New task".to_string(),
            level: 1,
            keyword: Some("TODO".to_string()),
            priority: None,
            tags: vec![],
            scheduled: None,
            deadline: None,
        },
    );
    assert!(result.content.contains("* TODO New task"));
}

#[test]
fn add_entry_at_end() {
    let (source, doc) = make_doc("* Existing\n");
    let result = add_entry(
        &source,
        &doc,
        None,
        &NewEntryOpts {
            title: "Second".to_string(),
            level: 1,
            keyword: Some("TODO".to_string()),
            priority: None,
            tags: vec![],
            scheduled: None,
            deadline: None,
        },
    );
    assert!(result.content.contains("* Existing\n"));
    assert!(result.content.contains("* TODO Second\n"));
}

#[test]
fn add_entry_with_planning() {
    let (source, doc) = make_doc("* Existing\n");
    let result = add_entry(
        &source,
        &doc,
        None,
        &NewEntryOpts {
            title: "Meeting".to_string(),
            level: 1,
            keyword: Some("TODO".to_string()),
            priority: Some('A'),
            tags: vec!["work".to_string()],
            scheduled: Some("2024-06-15".to_string()),
            deadline: None,
        },
    );
    assert!(result.content.contains("* TODO [#A] Meeting :work:"));
    assert!(result.content.contains("SCHEDULED: <2024-06-15>"));
}

#[test]
fn add_entry_as_child() {
    let (source, doc) = make_doc("* Parent\nSome text.\n");
    let result = add_entry(
        &source,
        &doc,
        Some(0),
        &NewEntryOpts {
            title: "Child".to_string(),
            level: 2,
            keyword: Some("TODO".to_string()),
            priority: None,
            tags: vec![],
            scheduled: None,
            deadline: None,
        },
    );
    assert!(result.content.contains("* Parent\n"));
    assert!(result.content.contains("** TODO Child\n"));
}

fn opts(title: &str, level: usize) -> NewEntryOpts {
    NewEntryOpts {
        title: title.to_string(),
        level,
        keyword: None,
        priority: None,
        tags: vec![],
        scheduled: None,
        deadline: None,
    }
}

#[test]
fn add_entry_to_empty_file_exact() {
    let (source, doc) = make_doc("");
    let mut o = opts("New task", 1);
    o.keyword = Some("TODO".to_string());
    let result = add_entry(&source, &doc, None, &o);
    assert_eq!(result.content, "\n\n* TODO New task\n");
}

#[test]
fn add_entry_without_trailing_newline() {
    let (source, doc) = make_doc("* Existing");
    let result = add_entry(&source, &doc, None, &opts("Next", 1));
    assert_eq!(result.content, "* Existing\n\n* Next\n");
}

#[test]
fn add_entry_after_blank_line_adds_no_other() {
    let (source, doc) = make_doc("* Existing\n\n");
    let result = add_entry(&source, &doc, None, &opts("Next", 1));
    assert_eq!(result.content, "* Existing\n\n* Next\n");
}

#[test]
fn add_entry_with_both_dates_and_tags() {
    let (source, doc) = make_doc("* A\n");
    let mut o = opts("Plan", 2);
    o.priority = Some('B');
    o.tags = vec!["x".to_string(), "y".to_string()];
    o.scheduled = Some("2024-06-15".to_string());
    o.deadline = Some("2024-06-20".to_string());
    let result = add_entry(&source, &doc, None, &o);
    assert_eq!(
        result.content,
        "* A\n\n** [#B] Plan :x:y:\nSCHEDULED: <2024-06-15> DEADLINE: <2024-06-20>\n"
    );
}

#[test]
fn add_entry_as_child_before_next_sibling() {
    let (source, doc) = make_doc("* One\ntext\n* Two\n");
    let result = add_entry(&source, &doc, Some(0), &opts("Sub", 2));
    assert_eq!(result.content, "* One\ntext\n\n** Sub\n* Two\n");
}

#[test]
fn add_entry_as_child_exact() {
    let (source, doc) = make_doc("* Parent\nSome text.\n");
    let result = add_entry(&source, &doc, Some(0), &opts("Child", 2));
    assert_eq!(result.content, "* Parent\nSome text.\n\n** Child\n");
}
