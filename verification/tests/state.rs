use org_tools_core::document::OrgDocument;
use org_tools_core::source::SourceFile;
use org_tools_core::state::{set_state, set_state_at, timestamp_text};

fn make_doc(content: &str) -> (SourceFile, OrgDocument) {
    let source = SourceFile::new("test.org", content.to_string());
    let doc = OrgDocument::from_source(&source);
    (source, doc)
}

#[test]
fn set_state_todo_to_done() {
    let (source, doc) = make_doc("* TODO Task\n");
    let result = set_state(&source, &doc, None, "DONE", false).unwrap();
    assert!(result.content.contains("* DONE Task"));
    assert_eq!(result.changed, 1);
}

#[test]
fn set_state_done_to_todo() {
    let (source, doc) = make_doc("* DONE Task\n");
    let result = set_state(&source, &doc, None, "TODO", false).unwrap();
    assert!(result.content.contains("* TODO Task"));
}

#[test]
fn set_state_preserves_priority_and_tags() {
    let (source, doc) = make_doc("* TODO [#A] Task :work:\n");
    let result = set_state(&source, &doc, None, "DONE", false).unwrap();
    assert!(result.content.contains("* DONE [#A] Task :work:"));
}

#[test]
fn set_state_already_in_state() {
    let (source, doc) = make_doc("* TODO Task\n");
    let result = set_state(&source, &doc, None, "TODO", false);
    assert!(result.is_none());
}

#[test]
fn set_state_specific_entry() {
    let (source, doc) = make_doc("* TODO First\n* TODO Second\n");
    let result = set_state(&source, &doc, Some(&[1]), "DONE", false).unwrap();
    assert!(result.content.contains("* TODO First"));
    assert!(result.content.contains("* DONE Second"));
}

#[test]
fn set_state_with_closed_timestamp() {
    let (source, doc) = make_doc("* TODO Task\n");
    let result = set_state(&source, &doc, None, "DONE", true).unwrap();
    assert!(result.content.contains("* DONE Task"));
    assert!(result.content.contains("CLOSED:"));
}

#[test]
fn timestamp_text_of_epoch() {
    assert_eq!(timestamp_text(0), "1970-01-01 Thu 00:00");
}

#[test]
fn timestamp_text_of_known_instant() {
    // 2024-02-29 13:45:10 UTC, a Thursday in a leap year.
    assert_eq!(timestamp_text(1709214310), "2024-02-29 Thu 13:45");
}

#[test]
fn set_state_at_inserts_closed_line() {
    let (source, doc) = make_doc("* TODO Task\nBody\n");
    let result = set_state_at(&source, &doc, None, "DONE", true, "2024-01-15 Mon 10:30").unwrap();
    assert_eq!(result.content, "* DONE Task\nCLOSED: [2024-01-15 Mon 10:30]\nBody\n");
    assert_eq!(result.changed, 1);
}

#[test]
fn set_state_at_removes_closed_line() {
    let (source, doc) = make_doc("* DONE Task\nCLOSED: [2024-01-15 Mon 10:30]\nBody\n");
    let result = set_state_at(&source, &doc, None, "TODO", true, "2024-01-16 Tue 08:00").unwrap();
    assert_eq!(result.content, "* TODO Task\nBody\n");
}

#[test]
fn set_state_at_nothing_to_change() {
    let (source, doc) = make_doc("Just text\n");
    assert!(set_state_at(&source, &doc, None, "DONE", true, "2024-01-15 Mon 10:30").is_none());
}

#[test]
fn set_state_entries_in_any_order() {
    let (source, doc) = make_doc("* TODO A\n* TODO B\n");
    let result = set_state_at(&source, &doc, Some(&[1, 0]), "DONE", true, "2024-01-15 Mon 10:30").unwrap();
    assert_eq!(
        result.content,
        "* DONE A\nCLOSED: [2024-01-15 Mon 10:30]\n* DONE B\nCLOSED: [2024-01-15 Mon 10:30]\n"
    );
    assert_eq!(result.changed, 2);
}
