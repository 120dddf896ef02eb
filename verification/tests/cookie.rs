use org_tools_core::cookie::{find_cookie, update_cookies};
use org_tools_core::document::OrgDocument;
use org_tools_core::source::SourceFile;

fn make_doc(content: &str) -> (SourceFile, OrgDocument) {
    let source = SourceFile::new("test.org", content.to_string());
    let doc = OrgDocument::from_source(&source);
    (source, doc)
}

#[test]
fn updates_fraction_cookie() {
    let (source, doc) = make_doc("* Project [0/2]\n** TODO First\n** DONE Second\n");
    let result = update_cookies(&source, &doc, false).unwrap();
    assert!(result.content.contains("[1/2]"));
    assert_eq!(result.updated, 1);
}

#[test]
fn updates_percent_cookie() {
    let (source, doc) = make_doc("* Project [0%]\n** TODO First\n** DONE Second\n");
    let result = update_cookies(&source, &doc, false).unwrap();
    assert!(result.content.contains("[50%]"));
}

#[test]
fn inserts_missing_cookie() {
    let (source, doc) = make_doc("* Project\n** TODO First\n** DONE Second\n");
    let result = update_cookies(&source, &doc, true).unwrap();
    assert!(result.content.contains("[1/2]"));
}

#[test]
fn no_insert_when_not_requested() {
    let (source, doc) = make_doc("* Project\n** TODO First\n** DONE Second\n");
    let result = update_cookies(&source, &doc, false);
    assert!(result.is_none());
}

#[test]
fn no_todo_children_skipped() {
    let (source, doc) = make_doc("* Project [0/0]\n** Notes\n** More notes\n");
    // Children have no TODO keywords, so no update.
    let result = update_cookies(&source, &doc, false);
    assert!(result.is_none());
}

#[test]
fn all_done() {
    let (source, doc) = make_doc("* Project [0/2]\n** DONE First\n** DONE Second\n");
    let result = update_cookies(&source, &doc, false).unwrap();
    assert!(result.content.contains("[2/2]"));
}

#[test]
fn cookie_before_tags() {
    let (source, doc) = make_doc("* Project :work:\n** TODO Task\n");
    let result = update_cookies(&source, &doc, true).unwrap();
    // Cookie should be inserted before tags.
    assert!(result.content.contains("[0/1] :work:"));
}

#[test]
fn find_cookie_fraction() {
    assert_eq!(find_cookie("* Project [2/5] more"), Some((10, 15, false)));
}

#[test]
fn find_cookie_percent() {
    assert_eq!(find_cookie("* Project [40%] more"), Some((10, 15, true)));
}

#[test]
fn find_cookie_none() {
    assert_eq!(find_cookie("* No cookie here"), None);
}

#[test]
fn cookie_exact_updates() {
    let (source, doc) = make_doc("* A [1/9] x\n** TODO a\n** DONE b\n** c\n* B :t:\n** DONE d\n");
    let result = update_cookies(&source, &doc, true).unwrap();
    assert_eq!(result.content, "* A [1/2] x\n** TODO a\n** DONE b\n** c\n* B [1/1] :t:\n** DONE d\n");
    assert_eq!(result.updated, 2);
    let (source, doc) = make_doc("* P [%] [33%]\n** TODO a\n** DONE b\n** DONE c\n");
    let result = update_cookies(&source, &doc, false).unwrap();
    assert_eq!(result.content, "* P [66%] [33%]\n** TODO a\n** DONE b\n** DONE c\n");
}

#[test]
fn find_cookie_skips_false_starts() {
    assert_eq!(find_cookie("[x [1/2]"), Some((3, 8, false)));
    assert_eq!(find_cookie("[[50%]"), Some((1, 6, true)));
    assert_eq!(find_cookie("[1/2"), None);
}

#[test]
fn cookie_update_exact_content() {
    let (source, doc) = make_doc("* Project [0/2]\n** TODO First\n** DONE Second\n");
    let result = update_cookies(&source, &doc, false).unwrap();
    assert_eq!(result.content, "* Project [1/2]\n** TODO First\n** DONE Second\n");
    let (source, doc) = make_doc("* Project\n** TODO First\n** DONE Second\n");
    let result = update_cookies(&source, &doc, true).unwrap();
    assert_eq!(result.content, "* Project [1/2]\n** TODO First\n** DONE Second\n");
}
