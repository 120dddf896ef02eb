use org_tools_core::archive::{build_archive, find_archivable_entries, find_archivable_entries_at, parse_archive_target};
use org_tools_core::document::OrgDocument;
use org_tools_core::source::SourceFile;
use std::path::Path;

fn make_doc(content: &str) -> (SourceFile, OrgDocument) {
    let source = SourceFile::new("test.org", content.to_string());
    let doc = OrgDocument::from_source(&source);
    (source, doc)
}

#[test]
fn parse_target_with_file_and_heading() {
    let target = parse_archive_target("archive.org::* Archived", "test.org");
    assert_eq!(Path::new(&target.file.unwrap()).file_name().unwrap(), "archive.org");
    assert_eq!(target.heading.unwrap(), "* Archived");
}

#[test]
fn parse_target_same_file() {
    let target = parse_archive_target("::* Archive", "test.org");
    assert!(target.file.is_none());
    assert_eq!(target.heading.unwrap(), "* Archive");
}

#[test]
fn parse_target_default() {
    let target = parse_archive_target("", "/tmp/notes.org");
    assert!(target.file.unwrap().ends_with("notes_archive.org"));
    assert_eq!(target.heading.unwrap(), "* Archived");
}

#[test]
fn finds_done_entries() {
    let (source, doc) = make_doc("* TODO Open\n* DONE Finished\nSome body.\n* TODO Another\n");
    let entries = find_archivable_entries(&source, &doc, &[]);
    assert_eq!(entries.len(), 1);
    assert_eq!(entries[0].title, "Finished");
    assert!(entries[0].content.contains("ARCHIVE_TIME"));
}

#[test]
fn skips_open_entries() {
    let (source, doc) = make_doc("* TODO Open\n");
    let entries = find_archivable_entries(&source, &doc, &[]);
    assert!(entries.is_empty());
}

#[test]
fn archives_with_children() {
    let (source, doc) = make_doc("* DONE Parent\n** DONE Child\n*** DONE Grandchild\n* TODO Other\n");
    let entries = find_archivable_entries(&source, &doc, &[]);
    // Parent is done, so the whole subtree is archived as one unit.
    assert_eq!(entries.len(), 1);
    assert_eq!(entries[0].title, "Parent");
}

#[test]
fn build_archive_removes_from_source() {
    let (source, doc) = make_doc("* TODO Keep\n* DONE Remove\nBody.\n* TODO Also keep\n");
    let entries = find_archivable_entries(&source, &doc, &[]);
    let target = parse_archive_target("archive.org::* Archived", "test.org");
    let result = build_archive(&source, &doc, &entries, &target).unwrap();

    assert!(result.source_content.contains("* TODO Keep"));
    assert!(result.source_content.contains("* TODO Also keep"));
    assert!(!result.source_content.contains("* DONE Remove"));
    assert!(result.archive_content.contains("* DONE Remove"));
    assert_eq!(result.archived, 1);
}

#[test]
fn archive_text_exact_with_fixed_time() {
    let (source, doc) = make_doc("* Top\n** DONE Task\nSCHEDULED: <2024-01-01 Mon>\n:PROPERTIES:\n:ID: x\n:END:\nBody\n* Next\n");
    let entries = find_archivable_entries_at(&source, &doc, &[], "2024-05-06 Mon 07:08");
    assert_eq!(entries.len(), 1);
    assert_eq!(
        entries[0].content,
        "** DONE Task\nSCHEDULED: <2024-01-01 Mon>\n:PROPERTIES:\n:ARCHIVE_TIME: 2024-05-06 Mon 07:08\n\
         :ARCHIVE_FILE: test.org\n:ARCHIVE_OLPATH: Top/Task\n:ID: x\n:END:\nBody\n"
    );
    assert_eq!(entries[0].outline_path, "Top/Task");
    assert_eq!((entries[0].start_line, entries[0].end_line), (2, 8));
    let target = parse_archive_target("::", "test.org");
    assert_eq!(target.file, None);
    assert_eq!(target.heading, None);
    let result = build_archive(&source, &doc, &entries, &target).unwrap();
    assert_eq!(result.source_content, "* Top\n* Next\n");
    assert_eq!(result.archive_path, "test.org");
    assert!(result.archive_content.starts_with("\n** DONE Task\n"));
}

#[test]
fn archive_new_drawer_and_tag_filter() {
    let (source, doc) = make_doc("#+FILETAGS: :proj:\n* DONE A :work:\nText\n* DONE B\n");
    let all = find_archivable_entries_at(&source, &doc, &[], "T");
    assert_eq!(all.len(), 2);
    assert_eq!(
        all[1].content,
        "* DONE B\n:PROPERTIES:\n:ARCHIVE_TIME: T\n:ARCHIVE_FILE: test.org\n:ARCHIVE_OLPATH: B\n:END:\n\n"
    );
    let work = find_archivable_entries_at(&source, &doc, &["WORK".to_string()], "T");
    assert_eq!(work.len(), 1);
    assert_eq!(work[0].title, "A");
    let proj = find_archivable_entries_at(&source, &doc, &["proj".to_string()], "T");
    assert_eq!(proj.len(), 2);
    let none: Vec<org_tools_core::archive::ArchiveEntry> = Vec::new();
    assert!(build_archive(&source, &doc, &none, &parse_archive_target("x.org", "a/b.org")).is_none());
}

#[test]
fn archive_target_plain_file_is_relative_to_source() {
    let target = parse_archive_target(" done.org ", "/notes/todo.org");
    assert_eq!(target.file.unwrap(), "/notes/done.org");
    assert_eq!(target.heading, None);
    let target = parse_archive_target("/abs/x.org::* H", "/notes/todo.org");
    assert_eq!(target.file.unwrap(), "/abs/x.org");
}

#[test]
fn every_done_entry_goes_by_itself_or_with_an_ancestor() {
    let (source, doc) = make_doc("* DONE A\n** DONE A1\n** TODO A2\n* TODO B\n** DONE B1\n*** DONE B1a\n* DONE C\n");
    let got = find_archivable_entries_at(&source, &doc, &[], "T");
    let titles: Vec<&str> = got.iter().map(|e| e.title.as_str()).collect();
    assert_eq!(titles, vec!["A", "B1", "C"]);
    assert_eq!((got[0].start_line, got[0].end_line), (1, 4));
    assert_eq!((got[1].start_line, got[1].end_line), (5, 7));
    assert_eq!(got[2].start_line, 7);
}

#[test]
fn archived_parent_carries_its_subtree() {
    let (source, doc) = make_doc("* DONE Parent\n** DONE Child\n*** DONE Grandchild\n* TODO Other\n");
    let entries = find_archivable_entries(&source, &doc, &[]);
    assert_eq!(entries.len(), 1);
    assert_eq!(entries[0].title, "Parent");
    assert!(entries[0].content.contains("** DONE Child\n"));
    assert!(entries[0].content.contains("*** DONE Grandchild\n"));
    assert_eq!((entries[0].start_line, entries[0].end_line), (1, 4));
    let target = parse_archive_target("archive.org::* Archived", "test.org");
    let result = build_archive(&source, &doc, &entries, &target).unwrap();
    assert_eq!(result.source_content, "* TODO Other\n");
    assert_eq!(result.archived, 1);
}

#[test]
fn build_archive_exact_source_and_archive_head() {
    let (source, doc) = make_doc("* TODO Keep\n* DONE Remove\nBody.\n* TODO Also keep\n");
    let entries = find_archivable_entries(&source, &doc, &[]);
    let target = parse_archive_target("archive.org::* Archived", "test.org");
    let result = build_archive(&source, &doc, &entries, &target).unwrap();
    assert_eq!(result.source_content, "* TODO Keep\n* TODO Also keep\n");
    assert!(result.archive_content.starts_with("* Archived\n\n* DONE Remove\n"));
    assert_eq!(result.archived, 1);
}
