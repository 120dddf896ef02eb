use org_tools_core::document::OrgDocument;
use org_tools_core::id::{
    add_ids, collect_subtree, expand_template_with, insert_ids, slugify, EntryInfo, IdGenerator,
};
use org_tools_core::props::PropMap;
use org_tools_core::source::SourceFile;

// --- slugify ---

#[test]
fn slugify_basic() {
    assert_eq!(slugify("Hello World"), "hello-world");
}

#[test]
fn slugify_special_chars() {
    assert_eq!(slugify("Foo: Bar & Baz!"), "foo-bar-baz");
}

#[test]
fn slugify_empty() {
    assert_eq!(slugify(""), "");
}

#[test]
fn slugify_leading_trailing_special() {
    assert_eq!(slugify("--Hello--"), "hello");
}

#[test]
fn slugify_consecutive_specials() {
    assert_eq!(slugify("a   b   c"), "a-b-c");
}

// --- add_ids: no properties drawer ---

#[test]
fn add_id_no_drawer() {
    let content = "* Heading\nSome body text\n";
    let source = SourceFile::new("test.org", content.to_string());
    let doc = OrgDocument::from_source(&source);

    let result = add_ids(&source, &doc, None, &IdGenerator::Uuid)
        .unwrap()
        .unwrap();

    assert_eq!(result.ids_added, 1);
    // The result should have :PROPERTIES: / :ID: / :END: inserted after heading.
    assert!(result.content.contains(":PROPERTIES:\n:ID: "));
    assert!(result.content.contains("\n:END:\n"));
    // Heading and body should still be there.
    assert!(result.content.starts_with("* Heading\n:PROPERTIES:"));
    assert!(result.content.contains("Some body text"));
}

// --- add_ids: existing drawer without ID ---

#[test]
fn add_id_existing_drawer() {
    let content = "* Heading\n:PROPERTIES:\n:CATEGORY: work\n:END:\nBody\n";
    let source = SourceFile::new("test.org", content.to_string());
    let doc = OrgDocument::from_source(&source);

    let result = add_ids(&source, &doc, None, &IdGenerator::Uuid)
        .unwrap()
        .unwrap();

    assert_eq!(result.ids_added, 1);
    // :ID: should be inserted as the first property inside the drawer.
    let props_pos = result.content.find(":PROPERTIES:").unwrap();
    let id_pos = result.content.find(":ID: ").unwrap();
    let cat_pos = result.content.find(":CATEGORY:").unwrap();
    assert!(id_pos > props_pos, "ID should be after :PROPERTIES:");
    assert!(id_pos < cat_pos, "ID should be before existing properties");
}

// --- add_ids: already has ID ---

#[test]
fn skip_entry_with_existing_id() {
    let content = "* Heading\n:PROPERTIES:\n:ID: existing-id\n:END:\n";
    let source = SourceFile::new("test.org", content.to_string());
    let doc = OrgDocument::from_source(&source);

    let result = add_ids(&source, &doc, None, &IdGenerator::Uuid).unwrap();
    assert!(
        result.is_none(),
        "Should return None when all entries have IDs"
    );
}

// --- add_ids: multiple entries, mixed ---

#[test]
fn mixed_entries() {
    let content = "* Has ID\n:PROPERTIES:\n:ID: abc\n:END:\n* No ID\nBody\n* Also no ID\n";
    let source = SourceFile::new("test.org", content.to_string());
    let doc = OrgDocument::from_source(&source);

    let result = add_ids(&source, &doc, None, &IdGenerator::Uuid)
        .unwrap()
        .unwrap();

    assert_eq!(result.ids_added, 2);
    // Original ID should be preserved.
    assert!(result.content.contains(":ID: abc"));
}

// --- add_ids: with planning line ---

#[test]
fn add_id_after_planning() {
    let content = "* TODO Task\nSCHEDULED: <2026-03-21>\nBody\n";
    let source = SourceFile::new("test.org", content.to_string());
    let doc = OrgDocument::from_source(&source);

    let result = add_ids(&source, &doc, None, &IdGenerator::Uuid)
        .unwrap()
        .unwrap();

    assert_eq!(result.ids_added, 1);
    // Drawer should be after the planning line.
    let sched_pos = result.content.find("SCHEDULED:").unwrap();
    let props_pos = result.content.find(":PROPERTIES:").unwrap();
    assert!(props_pos > sched_pos);
}

// --- add_ids: planning + existing drawer ---

#[test]
fn add_id_planning_and_drawer() {
    let content =
        "* TODO Task\nSCHEDULED: <2026-03-21>\n:PROPERTIES:\n:EFFORT: 1:00\n:END:\nBody\n";
    let source = SourceFile::new("test.org", content.to_string());
    let doc = OrgDocument::from_source(&source);

    let result = add_ids(&source, &doc, None, &IdGenerator::Uuid)
        .unwrap()
        .unwrap();

    assert_eq!(result.ids_added, 1);
    // :ID: should be inside the existing drawer.
    let id_pos = result.content.find(":ID: ").unwrap();
    let effort_pos = result.content.find(":EFFORT:").unwrap();
    assert!(id_pos < effort_pos);
}

// --- add_ids: targeted entries ---

#[test]
fn add_id_targeted_single() {
    let content = "* A\n* B\n* C\n";
    let source = SourceFile::new("test.org", content.to_string());
    let doc = OrgDocument::from_source(&source);

    // Only target entry 1 (B).
    let result = add_ids(&source, &doc, Some(&[1]), &IdGenerator::Uuid)
        .unwrap()
        .unwrap();

    assert_eq!(result.ids_added, 1);
    // A and C should not have drawers.
    let doc2 = {
        let s2 = SourceFile::new("test.org", result.content.clone());
        OrgDocument::from_source(&s2)
    };
    assert!(doc2.entries[0].properties.get("ID").is_none());
    assert!(doc2.entries[1].properties.get("ID").is_some());
    assert!(doc2.entries[2].properties.get("ID").is_none());
}

// --- collect_subtree ---

#[test]
fn subtree_collection() {
    let content = "* A\n** B\n*** C\n** D\n* E\n";
    let source = SourceFile::new("test.org", content.to_string());
    let doc = OrgDocument::from_source(&source);

    // A is entry 0, its subtree should be [0, 1, 2, 3] (A, B, C, D).
    let mut subtree = collect_subtree(&doc, 0);
    subtree.sort();
    assert_eq!(subtree, vec![0, 1, 2, 3]);

    // B is entry 1, its subtree should be [1, 2] (B, C).
    let mut subtree = collect_subtree(&doc, 1);
    subtree.sort();
    assert_eq!(subtree, vec![1, 2]);

    // E is entry 4, standalone.
    assert_eq!(collect_subtree(&doc, 4), vec![4]);
}

// --- add_ids with recursive subtree ---

#[test]
fn add_id_subtree() {
    let content = "* A\n** B\n*** C\n* D\n";
    let source = SourceFile::new("test.org", content.to_string());
    let doc = OrgDocument::from_source(&source);

    let subtree = collect_subtree(&doc, 0); // A and descendants.
    let result = add_ids(&source, &doc, Some(&subtree), &IdGenerator::Uuid)
        .unwrap()
        .unwrap();

    assert_eq!(result.ids_added, 3); // A, B, C — not D.
    let doc2 = {
        let s2 = SourceFile::new("test.org", result.content.clone());
        OrgDocument::from_source(&s2)
    };
    assert!(doc2.entries[0].properties.get("ID").is_some()); // A
    assert!(doc2.entries[1].properties.get("ID").is_some()); // B
    assert!(doc2.entries[2].properties.get("ID").is_some()); // C
    assert!(doc2.entries[3].properties.get("ID").is_none()); // D
}

// --- template expansion ---

#[test]
fn template_placeholders() {
    let gen = IdGenerator::Template("{file_stem}-{title_slug}-{level}".to_string());
    let info = EntryInfo {
        file: "projects.org",
        line: 1,
        level: 2,
        title: "Quarterly Review",
        keyword: None,
        tags: &[],
        properties: &PropMap::new(),
        index: 0,
    };
    let id = gen.generate(&info).unwrap();
    assert_eq!(id, "projects-quarterly-review-2");
}

// --- empty file ---

#[test]
fn empty_file() {
    let source = SourceFile::new("test.org", String::new());
    let doc = OrgDocument::from_source(&source);
    let result = add_ids(&source, &doc, None, &IdGenerator::Uuid).unwrap();
    assert!(result.is_none());
}

// --- file with no headings ---

#[test]
fn file_without_headings() {
    let content = "Just some text\nNo headings here\n";
    let source = SourceFile::new("test.org", content.to_string());
    let doc = OrgDocument::from_source(&source);
    let result = add_ids(&source, &doc, None, &IdGenerator::Uuid).unwrap();
    assert!(result.is_none());
}

// --- entry at end of file without trailing newline ---

#[test]
fn entry_at_eof_no_newline() {
    let content = "* Heading";
    let source = SourceFile::new("test.org", content.to_string());
    let doc = OrgDocument::from_source(&source);

    let result = add_ids(&source, &doc, None, &IdGenerator::Uuid)
        .unwrap()
        .unwrap();

    assert_eq!(result.ids_added, 1);
    assert!(result.content.starts_with("* Heading\n:PROPERTIES:"));
}

// --- idempotency ---

#[test]
fn idempotent() {
    let content = "* A\n* B\n";
    let source = SourceFile::new("test.org", content.to_string());
    let doc = OrgDocument::from_source(&source);

    let result = add_ids(&source, &doc, None, &IdGenerator::Uuid)
        .unwrap()
        .unwrap();

    // Run again on the result.
    let source2 = SourceFile::new("test.org", result.content);
    let doc2 = OrgDocument::from_source(&source2);
    let result2 = add_ids(&source2, &doc2, None, &IdGenerator::Uuid).unwrap();
    assert!(result2.is_none(), "Second run should be a no-op");
}

#[test]
fn slugify_digits_and_case() {
    assert_eq!(slugify("Q3 2024 Review, part 2"), "q3-2024-review-part-2");
}

#[test]
fn slugify_only_specials() {
    assert_eq!(slugify("!!! ???"), "");
}

#[test]
fn template_all_placeholders() {
    let id = expand_template_with(
        "{uuid}/{uuid_short}/{file_stem}/{title_slug}/{level}/{index}/{ts}",
        "0123abcd-0000-4000-8000-000000000000",
        "notes",
        "A Title",
        3,
        17,
        1700000000,
    );
    assert_eq!(
        id,
        "0123abcd-0000-4000-8000-000000000000/0123abcd/notes/a-title/3/17/1700000000"
    );
}

#[test]
fn template_without_placeholders() {
    let id = expand_template_with("plain", "0123abcd-0000-4000-8000-000000000000", "x", "T", 1, 0, 0);
    assert_eq!(id, "plain");
}

#[test]
fn uuid_ids_have_uuid_form() {
    let source = SourceFile::new("test.org", "* A
".to_string());
    let doc = OrgDocument::from_source(&source);
    let result = add_ids(&source, &doc, None, &IdGenerator::Uuid).unwrap().unwrap();
    let line = result.content.lines().find(|l| l.starts_with(":ID: ")).unwrap();
    let id = &line[5..];
    assert_eq!(id.len(), 36);
    assert_eq!(&id[14..15], "4");
    assert_eq!(id.matches('-').count(), 4);
}

#[test]
fn insert_ids_exact_no_drawer() {
    let source = SourceFile::new("test.org", "* A
Body
".to_string());
    let doc = OrgDocument::from_source(&source);
    let r = insert_ids(&source, &doc, &[0], &["x1".to_string()]).unwrap();
    assert_eq!(r.content, "* A
:PROPERTIES:
:ID: x1
:END:
Body
");
    assert_eq!(r.ids_added, 1);
}

#[test]
fn insert_ids_exact_existing_drawer() {
    let source = SourceFile::new("test.org", "* A
:properties:
:K: v
:END:
".to_string());
    let doc = OrgDocument::from_source(&source);
    let r = insert_ids(&source, &doc, &[0], &["x1".to_string()]).unwrap();
    assert_eq!(r.content, "* A
:properties:
:ID: x1
:K: v
:END:
");
}

#[test]
fn insert_ids_at_eof_without_newline() {
    let source = SourceFile::new("test.org", "* A".to_string());
    let doc = OrgDocument::from_source(&source);
    let r = insert_ids(&source, &doc, &[0], &["x1".to_string()]).unwrap();
    assert_eq!(r.content, "* A
:PROPERTIES:
:ID: x1
:END:
");
}

#[test]
fn insert_ids_reverse_order_is_sorted() {
    let source = SourceFile::new("test.org", "* A
* B
".to_string());
    let doc = OrgDocument::from_source(&source);
    let r = insert_ids(&source, &doc, &[1, 0], &["b".to_string(), "a".to_string()]).unwrap();
    assert_eq!(
        r.content,
        "* A
:PROPERTIES:
:ID: a
:END:
* B
:PROPERTIES:
:ID: b
:END:
"
    );
    assert_eq!(r.ids_added, 2);
}

#[test]
fn insert_ids_skips_empty() {
    let source = SourceFile::new("test.org", "* A
".to_string());
    let doc = OrgDocument::from_source(&source);
    assert!(insert_ids(&source, &doc, &[0], &[String::new()]).is_none());
}

#[test]
fn subtree_order_last_child_first() {
    let source = SourceFile::new("test.org", "* A
** B
*** C
** D
* E
".to_string());
    let doc = OrgDocument::from_source(&source);
    assert_eq!(collect_subtree(&doc, 0), vec![0, 3, 1, 2]);
}

#[test]
fn template_generator_uses_file_stem() {
    let props = PropMap::new();
    let info = EntryInfo {
        file: "dir/notes.org",
        line: 1,
        level: 1,
        title: "X",
        keyword: None,
        tags: &[],
        properties: &props,
        index: 4,
    };
    let gen = IdGenerator::Template("{file_stem}-{index}".to_string());
    assert_eq!(gen.generate(&info).unwrap(), "notes-4");
}

#[test]
fn slug_has_slug_form() {
    for title in ["  --Hello,   World!--  ", "ÄÖü 42 ++ x", "", "a_b-c"] {
        let s = slugify(title);
        assert!(s.chars().all(|c| c.is_ascii_lowercase() || c.is_ascii_digit() || c == '-'));
        assert!(!s.starts_with('-') && !s.ends_with('-'));
        assert!(!s.contains("--"));
    }
}

#[test]
fn subtree_holds_entry_and_descendants() {
    let source = SourceFile::new("test.org", "* A\n** B\n*** C\n** D\n**** E\n* F\n".to_string());
    let doc = OrgDocument::from_source(&source);
    let mut s = collect_subtree(&doc, 0);
    s.sort();
    assert_eq!(s, vec![0, 1, 2, 3, 4]);
}

#[test]
fn slugify_is_idempotent() {
    for t in ["Hello World", "  --Foo: Bar & Baz!--", "already-a-slug", "", "a--b", "Ünïcode Title 42"] {
        let s = slugify(t);
        assert_eq!(slugify(&s), s);
    }
}

#[test]
fn slugify_keeps_ascii_letters_and_digits() {
    let t = "Q3: Plan (v2) & Review!";
    let s = slugify(t);
    assert_eq!(s, "q3-plan-v2-review");
    let kept: String = s.chars().filter(|c| *c != '-').collect();
    let expected: String = t
        .chars()
        .filter(|c| c.is_ascii_alphanumeric())
        .map(|c| c.to_ascii_lowercase())
        .collect();
    assert_eq!(kept, expected);
}
