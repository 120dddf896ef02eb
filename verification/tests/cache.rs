use org_tools_core::cache::{
    cache_path_choice, compute_content_hash, dependency_targets, schema_plan, stale_file_ids, stat_unchanged,
    subtree_end_line, sync_action, FileRecord, Migration, SchemaStep, SyncAction,
};
use org_tools_core::document::OrgDocument;
use org_tools_core::source::SourceFile;

#[test]
fn hash_of_empty_input() {
    assert_eq!(compute_content_hash(b""), "cbf29ce484222325");
}

#[test]
fn hash_of_one_letter() {
    assert_eq!(compute_content_hash(b"a"), "af63dc4c8601ec8c");
}

#[test]
fn hash_differs_for_different_content() {
    assert_ne!(compute_content_hash(b"* A\n"), compute_content_hash(b"* B\n"));
}

#[test]
fn dependency_targets_keep_ids_only() {
    let v = dependency_targets("\"id-1\"  ids(x y) id-2 \"\" (foo)");
    assert_eq!(v, vec!["id-1".to_string(), "y)".to_string(), "id-2".to_string()]);
}

#[test]
fn dependency_targets_of_empty_value() {
    assert!(dependency_targets("   ").is_empty());
}

#[test]
fn schema_plan_steps() {
    assert_eq!(schema_plan(0, &[]), Ok(SchemaStep::Init));
    assert_eq!(schema_plan(1, &[]), Ok(SchemaStep::UpToDate));
    assert_eq!(
        schema_plan(999, &[]),
        Err("database schema version 999 is newer than supported version 1".to_string())
    );
    assert_eq!(
        schema_plan(-3, &[]),
        Err("could not migrate database from version -3 to 1".to_string())
    );
}

#[test]
fn schema_plan_follows_the_chain() {
    let ms = [
        Migration { from_version: -1, to_version: 0, description: "a", sql: "" },
        Migration { from_version: 5, to_version: 6, description: "b", sql: "" },
        Migration { from_version: 0, to_version: 1, description: "c", sql: "" },
    ];
    assert_eq!(schema_plan(-1, &ms), Ok(SchemaStep::Migrate(vec![0, 2])));
}

#[test]
fn stale_ids_are_those_not_active() {
    let rows = vec![(1, "a.org".to_string()), (2, "b.org".to_string()), (3, "c.org".to_string())];
    let active = vec!["c.org".to_string(), "a.org".to_string()];
    assert_eq!(stale_file_ids(&rows, &active), vec![2]);
}

#[test]
fn stat_and_hash_decisions() {
    let rec = FileRecord { size: 10, mtime_sec: 5, mtime_nsec: 7, hash: "h".to_string() };
    assert!(stat_unchanged(Some(&rec), 10, 5, 7));
    assert!(!stat_unchanged(Some(&rec), 10, 5, 8));
    assert!(!stat_unchanged(None, 10, 5, 7));
    assert_eq!(sync_action(Some(&rec), "h"), SyncAction::TouchStat);
    assert_eq!(sync_action(Some(&rec), "g"), SyncAction::Reindex);
    assert_eq!(sync_action(None, "h"), SyncAction::Reindex);
}

#[test]
fn cache_path_prefers_local_then_xdg_then_home() {
    assert_eq!(cache_path_choice(Some("/w"), true, Some("/x"), Some("/h")), "/w/.org-cache.db");
    assert_eq!(cache_path_choice(Some("/w"), false, Some("/x"), Some("/h")), "/x/org-tools/cache.db");
    assert_eq!(cache_path_choice(Some("/w"), false, None, Some("/h")), "/h/.cache/org-tools/cache.db");
    assert_eq!(cache_path_choice(Some("/w"), false, None, None), "/w/.org-cache.db");
    assert_eq!(cache_path_choice(None, false, None, None), ".org-cache.db");
}

#[test]
fn subtree_end_is_before_next_peer() {
    let source = SourceFile::new("t.org", "* A\n** B\ntext\n* C\nmore\n".to_string());
    let doc = OrgDocument::from_source(&source);
    assert_eq!(subtree_end_line(&doc, 0), 4);
    assert_eq!(subtree_end_line(&doc, 1), 4);
    assert_eq!(subtree_end_line(&doc, 2), doc.entries[2].content_end_line);
}
