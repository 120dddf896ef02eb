use org_tools_core::document::{parse_duration, parse_keyword_line, parse_property_line, OrgDocument};
use org_tools_core::rules::heading::PriorityRange;
use org_tools_core::source::SourceFile;

fn make_source(content: &str) -> SourceFile {
    SourceFile::new("test.org", content.to_string())
}

#[test]
fn empty_document() {
    let source = make_source("");
    let doc = OrgDocument::from_source(&source);
    assert!(doc.entries.is_empty());
}

#[test]
fn single_heading() {
    let source = make_source("* Hello\nSome text.\n");
    let doc = OrgDocument::from_source(&source);
    assert_eq!(doc.entries.len(), 1);
    assert_eq!(doc.entries[0].level, 1);
    assert_eq!(doc.entries[0].title, "Hello");
    assert_eq!(doc.entries[0].heading_line, 1);
}

#[test]
fn heading_with_todo_and_tags() {
    let source = make_source("* TODO [#A] Meeting notes :work:urgent:\n");
    let doc = OrgDocument::from_source(&source);
    let e = &doc.entries[0];
    assert_eq!(e.keyword.as_deref(), Some("TODO"));
    assert_eq!(e.priority, Some('A'));
    assert_eq!(e.title, "Meeting notes");
    assert_eq!(e.tags, vec!["work", "urgent"]);
}

#[test]
fn parent_child_relationships() {
    let source = make_source("* Parent\n** Child 1\n** Child 2\n*** Grandchild\n");
    let doc = OrgDocument::from_source(&source);
    assert_eq!(doc.entries.len(), 4);

    assert!(doc.entries[0].parent.is_none());
    assert_eq!(doc.entries[0].children, vec![1, 2]);

    assert_eq!(doc.entries[1].parent, Some(0));
    assert!(doc.entries[1].children.is_empty());

    assert_eq!(doc.entries[2].parent, Some(0));
    assert_eq!(doc.entries[2].children, vec![3]);

    assert_eq!(doc.entries[3].parent, Some(2));
}

#[test]
fn outline_path() {
    let source = make_source("* A\n** B\n*** C\n");
    let doc = OrgDocument::from_source(&source);
    assert_eq!(doc.outline_path(2), vec!["A", "B", "C"]);
    assert_eq!(doc.outline_path(0), vec!["A"]);
}

#[test]
fn planning_timestamps() {
    let source = make_source(
        "* TODO Task\nSCHEDULED: <2024-01-15 Mon 09:00> DEADLINE: <2024-02-01 Thu>\n",
    );
    let doc = OrgDocument::from_source(&source);
    let e = &doc.entries[0];
    assert!(e.planning.scheduled.is_some());
    assert!(e.planning.deadline.is_some());
    assert_eq!(e.planning.scheduled.as_ref().unwrap().day, 15);
    assert_eq!(e.planning.deadline.as_ref().unwrap().day, 1);
}

#[test]
fn property_drawer() {
    let source =
        make_source("* Heading\n:PROPERTIES:\n:ID: abc-123\n:CUSTOM_ID: my-heading\n:END:\n");
    let doc = OrgDocument::from_source(&source);
    let e = &doc.entries[0];
    assert_eq!(e.properties.get("ID").unwrap(), "abc-123");
    assert_eq!(e.properties.get("CUSTOM_ID").unwrap(), "my-heading");
}

#[test]
fn find_by_id() {
    let source = make_source(
        "* A\n:PROPERTIES:\n:ID: uuid-1\n:END:\n* B\n:PROPERTIES:\n:ID: uuid-2\n:END:\n",
    );
    let doc = OrgDocument::from_source(&source);
    assert_eq!(doc.find_by_id("uuid-2"), Some(1));
    assert_eq!(doc.find_by_id("uuid-1"), Some(0));
    assert_eq!(doc.find_by_id("nonexistent"), None);
}

#[test]
fn find_by_custom_id() {
    let source = make_source("* Heading\n:PROPERTIES:\n:CUSTOM_ID: my-section\n:END:\n");
    let doc = OrgDocument::from_source(&source);
    assert_eq!(doc.find_by_custom_id("my-section"), Some(0));
}

#[test]
fn clock_entries_in_logbook() {
    let source = make_source(
        "* Task\n:LOGBOOK:\nCLOCK: [2024-01-15 Mon 09:00]--[2024-01-15 Mon 10:30] =>  1:30\nCLOCK: [2024-01-14 Sun 14:00]--[2024-01-14 Sun 14:45] =>  0:45\n:END:\n",
    );
    let doc = OrgDocument::from_source(&source);
    let e = &doc.entries[0];
    assert_eq!(e.clocks.len(), 2);
    assert_eq!(e.clocks[0].duration_minutes, Some(90));
    assert!(e.clocks[0].end.is_some());
    assert_eq!(e.clocks[1].duration_minutes, Some(45));
}

#[test]
fn running_clock() {
    let source = make_source("* Task\n:LOGBOOK:\nCLOCK: [2024-01-15 Mon 09:00]\n:END:\n");
    let doc = OrgDocument::from_source(&source);
    let e = &doc.entries[0];
    assert_eq!(e.clocks.len(), 1);
    assert!(e.clocks[0].end.is_none());
    assert_eq!(e.clocks[0].duration_minutes, None);
}

#[test]
fn standalone_clock_outside_logbook() {
    let source =
        make_source("* Task\nCLOCK: [2024-01-15 Mon 09:00]--[2024-01-15 Mon 10:00] =>  1:00\n");
    let doc = OrgDocument::from_source(&source);
    assert_eq!(doc.entries[0].clocks.len(), 1);
}

#[test]
fn file_level_properties() {
    let source =
        make_source(":PROPERTIES:\n:ID: file-id\n:END:\n#+TITLE: My Document\n* Heading\n");
    let doc = OrgDocument::from_source(&source);
    assert_eq!(doc.file_properties.get("ID").unwrap(), "file-id");
    assert_eq!(doc.file_keywords.get("TITLE").unwrap(), "My Document");
    assert_eq!(doc.entries.len(), 1);
}

#[test]
fn file_keywords() {
    let source = make_source("#+TITLE: Test\n#+AUTHOR: User\n* Heading\n");
    let doc = OrgDocument::from_source(&source);
    assert_eq!(doc.file_keywords.get("TITLE").unwrap(), "Test");
    assert_eq!(doc.file_keywords.get("AUTHOR").unwrap(), "User");
}

#[test]
fn content_end_lines() {
    let source = make_source("* A\ntext\n* B\nmore text\n");
    let doc = OrgDocument::from_source(&source);
    assert_eq!(doc.entries[0].heading_line, 1);
    assert_eq!(doc.entries[0].content_end_line, 3); // Up to line 3 (exclusive)
    assert_eq!(doc.entries[1].heading_line, 3);
}

#[test]
fn inherited_tags() {
    let source = make_source("* Parent :parent_tag:\n** Child :child_tag:\n");
    let doc = OrgDocument::from_source(&source);
    let tags = doc.inherited_tags(1);
    assert!(tags.contains(&"child_tag"));
    assert!(tags.contains(&"parent_tag"));
}

#[test]
fn planning_after_heading_then_properties() {
    let source = make_source(
        "* TODO Task\nSCHEDULED: <2024-01-15 Mon>\n:PROPERTIES:\n:ID: t1\n:END:\nBody text\n",
    );
    let doc = OrgDocument::from_source(&source);
    let e = &doc.entries[0];
    assert!(e.planning.scheduled.is_some());
    assert_eq!(e.properties.get("ID").unwrap(), "t1");
}

#[test]
fn sibling_headings_at_different_levels() {
    let source = make_source("* A\n** B\n* C\n** D\n");
    let doc = OrgDocument::from_source(&source);
    // A's children: [B]
    assert_eq!(doc.entries[0].children, vec![1]);
    // C's children: [D]
    assert_eq!(doc.entries[2].children, vec![3]);
    // B and D are not siblings of each other
    assert_eq!(doc.entries[1].parent, Some(0));
    assert_eq!(doc.entries[3].parent, Some(2));
}

#[test]
fn parse_duration_values() {
    assert_eq!(parse_duration("=>  1:30"), Some(90));
    assert_eq!(parse_duration("=> 0:45"), Some(45));
    assert_eq!(parse_duration("=> 10:00"), Some(600));
    assert_eq!(parse_duration("not a duration"), None);
}

#[test]
fn property_line_parsing() {
    assert_eq!(
        parse_property_line(":ID: abc"),
        Some(("ID".to_string(), "abc".to_string()))
    );
    assert_eq!(
        parse_property_line(":CUSTOM_ID: my-id"),
        Some(("CUSTOM_ID".to_string(), "my-id".to_string()))
    );
    assert_eq!(parse_property_line("not a property"), None);
    assert_eq!(parse_property_line("::"), None); // Empty key.
}

#[test]
fn keyword_line_parsing() {
    assert_eq!(
        parse_keyword_line("#+TITLE: My Doc"),
        Some(("TITLE".to_string(), "My Doc".to_string()))
    );
    assert_eq!(
        parse_keyword_line("#+author: Me"),
        Some(("AUTHOR".to_string(), "Me".to_string()))
    );
    assert_eq!(parse_keyword_line("not a keyword"), None);
}

// --- Custom TODO keywords ---

#[test]
fn custom_todo_keywords_recognized() {
    let source = make_source("#+TODO: OPEN | CLOSED WONTFIX\n* OPEN A bug\n* CLOSED Fixed\n");
    let doc = OrgDocument::from_source(&source);
    assert_eq!(doc.todo_keywords.todo, vec!["OPEN"]);
    assert_eq!(doc.todo_keywords.done, vec!["CLOSED", "WONTFIX"]);
    assert_eq!(doc.entries[0].keyword, Some("OPEN".to_string()));
    assert_eq!(doc.entries[1].keyword, Some("CLOSED".to_string()));
}

#[test]
fn custom_todo_default_not_recognized() {
    // With custom keywords, "TODO" should NOT be recognized as a keyword.
    let source = make_source("#+TODO: OPEN | CLOSED\n* TODO This is a title\n");
    let doc = OrgDocument::from_source(&source);
    assert_eq!(doc.entries[0].keyword, None);
    assert_eq!(doc.entries[0].title, "TODO This is a title");
}

#[test]
fn no_todo_setting_uses_defaults() {
    let source = make_source("* TODO Task\n* DONE Finished\n");
    let doc = OrgDocument::from_source(&source);
    assert_eq!(doc.entries[0].keyword, Some("TODO".to_string()));
    assert_eq!(doc.entries[1].keyword, Some("DONE".to_string()));
}

#[test]
fn seq_todo_keyword() {
    let source = make_source("#+SEQ_TODO: DRAFT REVIEW | PUBLISHED\n* REVIEW Article\n");
    let doc = OrgDocument::from_source(&source);
    assert_eq!(doc.entries[0].keyword, Some("REVIEW".to_string()));
    assert!(doc.todo_keywords.is_done("PUBLISHED"));
    assert!(!doc.todo_keywords.is_done("REVIEW"));
}

// --- Custom priorities ---

#[test]
fn custom_priority_range() {
    let source = make_source("#+PRIORITIES: A E B\n* [#D] Task\n");
    let doc = OrgDocument::from_source(&source);
    assert_eq!(doc.priority_range.highest, 'A');
    assert_eq!(doc.priority_range.lowest, 'E');
    assert_eq!(doc.priority_range.default, 'B');
    assert!(doc.priority_range.is_valid('D'));
}

#[test]
fn default_priority_range() {
    let source = make_source("* [#B] Task\n");
    let doc = OrgDocument::from_source(&source);
    assert_eq!(doc.priority_range, PriorityRange::default());
}

// --- FILETAGS ---

#[test]
fn filetags_inherited() {
    let source = make_source("#+FILETAGS: :project:work:\n* Heading :local:\n");
    let doc = OrgDocument::from_source(&source);
    assert_eq!(doc.filetags, vec!["project", "work"]);
    let tags = doc.inherited_tags(0);
    assert!(tags.contains(&"local"));
    assert!(tags.contains(&"project"));
    assert!(tags.contains(&"work"));
}

#[test]
fn filetags_empty() {
    let source = make_source("* Heading\n");
    let doc = OrgDocument::from_source(&source);
    assert!(doc.filetags.is_empty());
}

#[test]
fn filetags_without_surrounding_colons() {
    // Some users write #+FILETAGS: tag1:tag2 without leading/trailing colons.
    let source = make_source("#+FILETAGS: tag1:tag2\n* H\n");
    let doc = OrgDocument::from_source(&source);
    assert_eq!(doc.filetags, vec!["tag1", "tag2"]);
}

// --- Default properties ---

#[test]
fn default_property_fallback() {
    let source = make_source("#+PROPERTY: CATEGORY work\n* Task\n");
    let doc = OrgDocument::from_source(&source);
    // Entry has no CATEGORY property, but the file default exists.
    assert_eq!(doc.property(0, "CATEGORY"), Some("work"));
}

#[test]
fn entry_property_overrides_default() {
    let source = make_source(
        "#+PROPERTY: CATEGORY work\n* Task\n:PROPERTIES:\n:CATEGORY: personal\n:END:\n",
    );
    let doc = OrgDocument::from_source(&source);
    assert_eq!(doc.property(0, "CATEGORY"), Some("personal"));
}

#[test]
fn no_default_property() {
    let source = make_source("* Task\n");
    let doc = OrgDocument::from_source(&source);
    assert_eq!(doc.property(0, "CATEGORY"), None);
}


#[test]
fn open_drawer_does_not_swallow_headings() {
    let source = SourceFile::new("t.org", "* A\n:PROPERTIES:\n:ID: x\n* B\n".to_string());
    let doc = OrgDocument::from_source(&source);
    assert_eq!(doc.entries.len(), 2);
    assert_eq!(doc.entries[1].title, "B");
    assert_eq!(doc.entries[1].heading_line, 4);
    assert_eq!(doc.entries[0].properties.get("ID").map(|s| s.as_str()), Some("x"));
}

#[test]
fn open_logbook_does_not_swallow_headings() {
    let source = SourceFile::new(
        "t.org",
        "* A\n:LOGBOOK:\nCLOCK: [2024-01-15 Mon 09:00]--[2024-01-15 Mon 10:30] =>  1:30\n* B\nCLOCK: [2024-01-16 Tue 09:00]\n".to_string(),
    );
    let doc = OrgDocument::from_source(&source);
    assert_eq!(doc.entries.len(), 2);
    assert_eq!(doc.entries[0].clocks.len(), 1);
    assert_eq!(doc.entries[0].clocks[0].duration_minutes, Some(90));
    assert_eq!(doc.entries[1].clocks.len(), 1);
    assert_eq!(doc.entries[1].clocks[0].line, 5);
}

#[test]
fn open_preamble_drawer_keeps_first_heading() {
    let source = SourceFile::new("t.org", ":PROPERTIES:\n:CATEGORY: c\n* A\n".to_string());
    let doc = OrgDocument::from_source(&source);
    assert_eq!(doc.entries.len(), 1);
    assert_eq!(doc.file_properties.get("CATEGORY").map(|s| s.as_str()), Some("c"));
}

#[test]
fn parents_children_and_preamble_exact() {
    let doc = OrgDocument::from_source(&SourceFile::new("test.org", "* Parent\n** Child 1\n** Child 2\n*** Grandchild\n".to_string()));
    let parents: Vec<Option<usize>> = doc.entries.iter().map(|e| e.parent).collect();
    assert_eq!(parents, vec![None, Some(0), Some(0), Some(2)]);
    let kids: Vec<Vec<usize>> = doc.entries.iter().map(|e| e.children.clone()).collect();
    assert_eq!(kids, vec![vec![1, 2], vec![], vec![3], vec![]]);
    let doc = OrgDocument::from_source(&SourceFile::new("test.org", "#+TODO: OPEN | CLOSED\n* TODO This is a title\n".to_string()));
    assert_eq!(doc.entries[0].keyword, None);
    assert_eq!(doc.entries[0].title, "TODO This is a title");
    let doc = OrgDocument::from_source(&SourceFile::new("test.org", "#+FILETAGS: :project:work:\n* Heading :local:\n".to_string()));
    assert_eq!(doc.filetags, vec!["project", "work"]);
    let t = doc.inherited_tags(0);
    assert_eq!(t.len(), 3);
}
