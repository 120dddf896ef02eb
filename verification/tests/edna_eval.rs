use org_tools_core::document::{OrgDocument, OrgEntry, Planning};
use org_tools_core::edna::{blocking_details, is_blocked, EdnaContext};
use org_tools_core::props::PropMap;
use org_tools_core::rules::heading::{PriorityRange, TodoKeywords};

fn make_doc_with_entries(entries_data: &[(&str, Option<&str>, Option<usize>)]) -> OrgDocument {
    // Build a minimal OrgDocument from (title, keyword, parent) tuples.
    let mut entries = Vec::new();
    for (i, (title, keyword, parent)) in entries_data.iter().enumerate() {
        entries.push(OrgEntry {
            level: if parent.is_some() { 2 } else { 1 },
            keyword: keyword.map(|s| s.to_string()),
            priority: None,
            title: title.to_string(),
            tags: Vec::new(),
            properties: PropMap::new(),
            planning: Planning::default(),
            clocks: Vec::new(),
            heading_line: i + 1,
            heading_offset: 0,
            content_end_line: i + 2,
            parent: *parent,
            children: Vec::new(),
            raw_heading: format!("* {title}"),
        });
    }
    // Build children lists.
    for i in 0..entries.len() {
        if let Some(parent_idx) = entries[i].parent {
            let child_idx = i;
            entries[parent_idx].children.push(child_idx);
        }
    }

    OrgDocument {
        file: "test.org".to_string(),
        entries,
        file_properties: PropMap::new(),
        file_keywords: PropMap::new(),
        todo_keywords: TodoKeywords::default(),
        priority_range: PriorityRange::default(),
        filetags: Vec::new(),
        default_properties: PropMap::new(),
    }
}

#[test]
fn not_blocked_without_blocker_property() {
    let doc = make_doc_with_entries(&[("Task A", Some("TODO"), None)]);
    let docs: Vec<&OrgDocument> = vec![&doc];
    let ctx = EdnaContext {
        all_docs: &docs,
        doc: &doc,
        entry_idx: 0,
    };
    assert!(!is_blocked(&ctx));
}

#[test]
fn blocked_by_undone_dependency() {
    let mut doc =
        make_doc_with_entries(&[("Dep", Some("TODO"), None), ("Blocked", Some("TODO"), None)]);
    doc.entries[0]
        .properties
        .insert("ID".to_string(), "dep-1".to_string());
    doc.entries[1]
        .properties
        .insert("BLOCKER".to_string(), "ids(\"dep-1\")".to_string());

    let docs: Vec<&OrgDocument> = vec![&doc];
    let ctx = EdnaContext {
        all_docs: &docs,
        doc: &doc,
        entry_idx: 1,
    };
    assert!(is_blocked(&ctx));
}

#[test]
fn not_blocked_when_dependency_done() {
    let mut doc =
        make_doc_with_entries(&[("Dep", Some("DONE"), None), ("Blocked", Some("TODO"), None)]);
    doc.entries[0]
        .properties
        .insert("ID".to_string(), "dep-1".to_string());
    doc.entries[1]
        .properties
        .insert("BLOCKER".to_string(), "ids(\"dep-1\")".to_string());

    let docs: Vec<&OrgDocument> = vec![&doc];
    let ctx = EdnaContext {
        all_docs: &docs,
        doc: &doc,
        entry_idx: 1,
    };
    assert!(!is_blocked(&ctx));
}

#[test]
fn blocked_by_previous_sibling() {
    let mut doc = make_doc_with_entries(&[
        ("First", Some("TODO"), None),
        ("Second", Some("TODO"), None),
    ]);
    doc.entries[1]
        .properties
        .insert("BLOCKER".to_string(), "previous-sibling".to_string());

    let docs: Vec<&OrgDocument> = vec![&doc];
    let ctx = EdnaContext {
        all_docs: &docs,
        doc: &doc,
        entry_idx: 1,
    };
    assert!(is_blocked(&ctx));
}

#[test]
fn not_blocked_when_previous_sibling_done() {
    let mut doc = make_doc_with_entries(&[
        ("First", Some("DONE"), None),
        ("Second", Some("TODO"), None),
    ]);
    doc.entries[1]
        .properties
        .insert("BLOCKER".to_string(), "previous-sibling".to_string());

    let docs: Vec<&OrgDocument> = vec![&doc];
    let ctx = EdnaContext {
        all_docs: &docs,
        doc: &doc,
        entry_idx: 1,
    };
    assert!(!is_blocked(&ctx));
}

#[test]
fn blocked_with_explicit_condition() {
    let mut doc = make_doc_with_entries(&[
        ("Dep", Some("WAITING"), None),
        ("Blocked", Some("TODO"), None),
    ]);
    doc.entries[0]
        .properties
        .insert("ID".to_string(), "dep-1".to_string());
    doc.entries[1].properties.insert(
        "BLOCKER".to_string(),
        "ids(\"dep-1\") todo-state?(\"DONE\")".to_string(),
    );

    let docs: Vec<&OrgDocument> = vec![&doc];
    let ctx = EdnaContext {
        all_docs: &docs,
        doc: &doc,
        entry_idx: 1,
    };
    // Dep is WAITING, condition requires DONE → blocked.
    assert!(is_blocked(&ctx));
}

#[test]
fn cross_file_id_resolution() {
    let mut doc1 = make_doc_with_entries(&[("Dep in file 1", Some("DONE"), None)]);
    doc1.entries[0]
        .properties
        .insert("ID".to_string(), "cross-dep".to_string());

    let mut doc2 = make_doc_with_entries(&[("Task in file 2", Some("TODO"), None)]);
    doc2.entries[0]
        .properties
        .insert("BLOCKER".to_string(), "ids(\"cross-dep\")".to_string());

    let docs: Vec<&OrgDocument> = vec![&doc1, &doc2];
    let ctx = EdnaContext {
        all_docs: &docs,
        doc: &doc2,
        entry_idx: 0,
    };
    // Dep is DONE → not blocked.
    assert!(!is_blocked(&ctx));
}

// -- blocking_details() tests --

#[test]
fn details_empty_when_not_blocked() {
    let doc = make_doc_with_entries(&[("Task A", Some("TODO"), None)]);
    let docs: Vec<&OrgDocument> = vec![&doc];
    let ctx = EdnaContext {
        all_docs: &docs,
        doc: &doc,
        entry_idx: 0,
    };
    assert!(blocking_details(&ctx).is_empty());
}

#[test]
fn details_shows_undone_dependency() {
    let mut doc = make_doc_with_entries(&[
        ("Research", Some("TODO"), None),
        ("Write", Some("TODO"), None),
    ]);
    doc.entries[0]
        .properties
        .insert("ID".to_string(), "dep-1".to_string());
    doc.entries[1]
        .properties
        .insert("BLOCKER".to_string(), "ids(\"dep-1\")".to_string());

    let docs: Vec<&OrgDocument> = vec![&doc];
    let ctx = EdnaContext {
        all_docs: &docs,
        doc: &doc,
        entry_idx: 1,
    };
    let details = blocking_details(&ctx);
    assert_eq!(details.len(), 1);
    assert_eq!(details[0].title, "Research");
    assert_eq!(details[0].keyword.as_deref(), Some("TODO"));
    assert_eq!(details[0].condition_desc, "must be done");
}

#[test]
fn details_empty_when_dependency_done() {
    let mut doc = make_doc_with_entries(&[
        ("Research", Some("DONE"), None),
        ("Write", Some("TODO"), None),
    ]);
    doc.entries[0]
        .properties
        .insert("ID".to_string(), "dep-1".to_string());
    doc.entries[1]
        .properties
        .insert("BLOCKER".to_string(), "ids(\"dep-1\")".to_string());

    let docs: Vec<&OrgDocument> = vec![&doc];
    let ctx = EdnaContext {
        all_docs: &docs,
        doc: &doc,
        entry_idx: 1,
    };
    assert!(blocking_details(&ctx).is_empty());
}

#[test]
fn details_with_explicit_condition() {
    let mut doc = make_doc_with_entries(&[
        ("Dep", Some("WAITING"), None),
        ("Blocked", Some("TODO"), None),
    ]);
    doc.entries[0]
        .properties
        .insert("ID".to_string(), "dep-1".to_string());
    doc.entries[1].properties.insert(
        "BLOCKER".to_string(),
        "ids(\"dep-1\") todo-state?(\"DONE\")".to_string(),
    );

    let docs: Vec<&OrgDocument> = vec![&doc];
    let ctx = EdnaContext {
        all_docs: &docs,
        doc: &doc,
        entry_idx: 1,
    };
    let details = blocking_details(&ctx);
    assert_eq!(details.len(), 1);
    assert_eq!(details[0].title, "Dep");
    assert_eq!(details[0].condition_desc, "must have state DONE");
}

#[test]
fn details_multiple_blockers() {
    let mut doc = make_doc_with_entries(&[
        ("Task A", Some("TODO"), None),
        ("Task B", Some("TODO"), None),
        ("Blocked", Some("TODO"), None),
    ]);
    doc.entries[0]
        .properties
        .insert("ID".to_string(), "a".to_string());
    doc.entries[1]
        .properties
        .insert("ID".to_string(), "b".to_string());
    doc.entries[2]
        .properties
        .insert("BLOCKER".to_string(), "ids(\"a\" \"b\")".to_string());

    let docs: Vec<&OrgDocument> = vec![&doc];
    let ctx = EdnaContext {
        all_docs: &docs,
        doc: &doc,
        entry_idx: 2,
    };
    let details = blocking_details(&ctx);
    assert_eq!(details.len(), 2);
    assert_eq!(details[0].title, "Task A");
    assert_eq!(details[1].title, "Task B");
}

#[test]
fn details_agree_with_is_blocked() {
    for (kw, cond) in [
        ("TODO", "ids(\"dep-1\")"),
        ("DONE", "ids(\"dep-1\")"),
        ("WAITING", "ids(\"dep-1\") todo-state?(\"WAITING\")"),
        ("TODO", "ids(\"dep-1\") todo-state?(\"WAITING\")"),
        ("TODO", "ids(\"missing\")"),
    ] {
        let mut doc = make_doc_with_entries(&[("Dep", Some(kw), None), ("Task", Some("TODO"), None)]);
        doc.entries[0]
            .properties
            .insert("ID".to_string(), "dep-1".to_string());
        doc.entries[1]
            .properties
            .insert("BLOCKER".to_string(), cond.to_string());
        let docs: Vec<&OrgDocument> = vec![&doc];
        let ctx = EdnaContext {
            all_docs: &docs,
            doc: &doc,
            entry_idx: 1,
        };
        assert_eq!(blocking_details(&ctx).is_empty(), !is_blocked(&ctx));
    }
}
