use org_tools_core::document::OrgDocument;
use org_tools_core::locator::{locator_for_entry, resolve_in_document, LocatorError, OrgLocator};
use org_tools_core::source::SourceFile;

#[test]
fn parse_id_locator() {
    let loc = OrgLocator::parse("id:550e8400-e29b-41d4-a716-446655440000").unwrap();
    assert_eq!(
        loc,
        OrgLocator::Id("550e8400-e29b-41d4-a716-446655440000".to_string())
    );
}

#[test]
fn parse_custom_id_locator() {
    let loc = OrgLocator::parse("notes.org::#project-x").unwrap();
    assert_eq!(
        loc,
        OrgLocator::CustomId {
            file: "notes.org".to_string(),
            custom_id: "project-x".to_string(),
        }
    );
}

#[test]
fn parse_outline_path_locator() {
    let loc = OrgLocator::parse("todo.org::*/Work/Meeting notes").unwrap();
    assert_eq!(
        loc,
        OrgLocator::OutlinePath {
            file: "todo.org".to_string(),
            path: vec!["Work".to_string(), "Meeting notes".to_string()],
        }
    );
}

#[test]
fn parse_line_ref_locator() {
    let loc = OrgLocator::parse("inbox.org::42").unwrap();
    assert_eq!(
        loc,
        OrgLocator::LineRef {
            file: "inbox.org".to_string(),
            line: 42,
        }
    );
}

#[test]
fn parse_invalid_locators() {
    assert!(OrgLocator::parse("").is_err());
    assert!(OrgLocator::parse("just-text").is_err());
    assert!(OrgLocator::parse("id:").is_err());
    assert!(OrgLocator::parse("file.org::#").is_err());
    assert!(OrgLocator::parse("file.org::*/").is_err());
    assert!(OrgLocator::parse("file.org::0").is_err());
    assert!(OrgLocator::parse("::search").is_err());
}

#[test]
fn display_roundtrip() {
    let cases = vec![
        "id:abc-123",
        "notes.org::#my-section",
        "todo.org::*/Work/Meeting",
        "inbox.org::42",
    ];
    for case in cases {
        let parsed = OrgLocator::parse(case).unwrap();
        assert_eq!(parsed.to_canonical_string(), case);
    }
}

#[test]
fn locator_prefers_id() {
    let source = SourceFile::new(
        "test.org",
        "* Heading\n:PROPERTIES:\n:ID: uuid-1\n:CUSTOM_ID: cid\n:END:\n".to_string(),
    );
    let doc = OrgDocument::from_source(&source);
    let loc = locator_for_entry(&doc, 0);
    assert_eq!(loc, OrgLocator::Id("uuid-1".to_string()));
}

#[test]
fn locator_falls_back_to_custom_id() {
    let source = SourceFile::new(
        "test.org",
        "* Heading\n:PROPERTIES:\n:CUSTOM_ID: my-heading\n:END:\n".to_string(),
    );
    let doc = OrgDocument::from_source(&source);
    let loc = locator_for_entry(&doc, 0);
    assert_eq!(
        loc,
        OrgLocator::CustomId {
            file: "test.org".to_string(),
            custom_id: "my-heading".to_string(),
        }
    );
}

#[test]
fn locator_falls_back_to_outline_path() {
    let source = SourceFile::new("test.org", "* Work\n** Meeting\n".to_string());
    let doc = OrgDocument::from_source(&source);
    let loc = locator_for_entry(&doc, 1);
    assert_eq!(
        loc,
        OrgLocator::OutlinePath {
            file: "test.org".to_string(),
            path: vec!["Work".to_string(), "Meeting".to_string()],
        }
    );
}

#[test]
fn parse_error_messages() {
    assert_eq!(
        OrgLocator::parse("file.org::0"),
        Err(LocatorError::InvalidFormat("line number must be >= 1".to_string()))
    );
    assert_eq!(
        OrgLocator::parse("  plain  "),
        Err(LocatorError::InvalidFormat(
            "locator must start with 'id:' or contain '::': plain".to_string()
        ))
    );
    assert_eq!(
        OrgLocator::parse("f.org::?x"),
        Err(LocatorError::InvalidFormat(
            "unrecognized search syntax after '::': ?x".to_string()
        ))
    );
    let e = OrgLocator::parse("id:").unwrap_err();
    assert_eq!(OrgLocator::describe(&e), "invalid locator format: id: locator has empty UUID");
}

#[test]
fn resolve_in_document_variants() {
    let source = SourceFile::new(
        "test.org",
        "* Work\n** MEETING NOTES\n:PROPERTIES:\n:CUSTOM_ID: m\n:ID: u-1\n:END:\nbody\n* Other\n".to_string(),
    );
    let doc = OrgDocument::from_source(&source);
    let r = resolve_in_document(
        &OrgLocator::OutlinePath {
            file: "test.org".to_string(),
            path: vec!["work".to_string(), "meeting notes".to_string()],
        },
        &doc,
    )
    .unwrap();
    assert_eq!(r.heading_text, "MEETING NOTES");
    assert_eq!(r.level, 2);
    assert_eq!(r.line, 2);
    let r = resolve_in_document(&OrgLocator::LineRef { file: "test.org".to_string(), line: 7 }, &doc).unwrap();
    assert_eq!(r.heading_text, "MEETING NOTES");
    let r = resolve_in_document(&OrgLocator::Id("u-1".to_string()), &doc).unwrap();
    assert_eq!(r.entry_index, 1);
    let r = resolve_in_document(
        &OrgLocator::CustomId { file: "test.org".to_string(), custom_id: "m".to_string() },
        &doc,
    )
    .unwrap();
    assert_eq!(r.entry_index, 1);
    let e = resolve_in_document(&OrgLocator::Id("nope".to_string()), &doc).unwrap_err();
    assert_eq!(e, LocatorError::EntryNotFound("id:nope".to_string()));
}

#[test]
fn canonical_string_reads_back_as_the_same_locator() {
    for input in ["  id:  abc  ", "a.org ::# sec ", "b.org::*/ Work / /Meeting/", "c.org::+7", "d.org:: 12 "] {
        let parsed = OrgLocator::parse(input).unwrap();
        let again = OrgLocator::parse(&parsed.to_canonical_string()).unwrap();
        assert_eq!(again, parsed);
    }
}
