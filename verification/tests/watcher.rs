use ramus_core::watcher::{vault_change, vault_changes, watch_action, ChangeKind, WatchAction, SELF_WRITE_WINDOW_MILLIS};

#[test]
fn markdown_files_under_the_root_are_changes() {
    let c = vault_change("/home/x/Journal", "/home/x/Journal/journals/2026-01-01.md").unwrap();
    assert_eq!(c.relative_path, "journals/2026-01-01.md");
    let c = vault_change("/home/x/Journal/", "/home/x/Journal/pages/a.md").unwrap();
    assert_eq!(c.relative_path, "pages/a.md");
}

#[test]
fn other_files_are_not_changes() {
    assert!(vault_change("/v", "/v/pages/a.txt").is_none());
    assert!(vault_change("/v", "/v/pages/.md").is_none());
    assert!(vault_change("/v", "/other/pages/a.md").is_none());
    assert!(vault_change("/v", "/vault/a.md").is_none());
    assert!(vault_change("/v", "/v/.ramus/x.md.tmp").is_none());
}

#[test]
fn only_create_modify_remove_events_count() {
    let paths = vec!["/v/a.md".to_string(), "/v/b.txt".to_string(), "/v/c.md".to_string()];
    let changes: Vec<String> = vault_changes(ChangeKind::Modify, "/v", &paths).into_iter().map(|c| c.relative_path).collect();
    assert_eq!(changes, vec!["a.md", "c.md"]);
    assert!(vault_changes(ChangeKind::Other, "/v", &paths).is_empty());
    assert_eq!(vault_changes(ChangeKind::Remove, "/v", &paths).len(), 2);
}

#[test]
fn own_write_within_the_window_is_ignored() {
    assert_eq!(watch_action(Some(0), true), WatchAction::Ignore);
    assert_eq!(watch_action(Some(1999), false), WatchAction::Ignore);
}

#[test]
fn own_write_older_than_the_window_is_treated_as_outside_change() {
    assert_eq!(SELF_WRITE_WINDOW_MILLIS, 2000);
    assert_eq!(watch_action(Some(2000), true), WatchAction::RefreshAndNotify);
    assert_eq!(watch_action(Some(5000), false), WatchAction::Notify);
}

#[test]
fn outside_change_refreshes_existing_files_and_always_notifies() {
    assert_eq!(watch_action(None, true), WatchAction::RefreshAndNotify);
    assert_eq!(watch_action(None, false), WatchAction::Notify);
}

#[test]
fn paths_are_compared_by_their_components() {
    let c = vault_change("/v", "/v//pages/./a.md").unwrap();
    assert_eq!(c.relative_path, "pages/a.md");
    let c = vault_change("/v/./", "/v/a.md").unwrap();
    assert_eq!(c.relative_path, "a.md");
    let c = vault_change("./v", "./v/journals/2026-01-01.md").unwrap();
    assert_eq!(c.relative_path, "journals/2026-01-01.md");
    assert!(vault_change("/v", "v/a.md").is_none());
    assert!(vault_change("./v", "v/a.md").is_none());
}

#[test]
fn a_root_without_components_keeps_the_whole_path() {
    let c = vault_change("", "/v/a.md").unwrap();
    assert_eq!(c.relative_path, "/v/a.md");
}

#[test]
fn relative_path_joined_onto_the_root_names_the_changed_file() {
    let cases = [
        ("/v/", "/v//pages/./a.md"),
        ("/home/x/Journal", "/home/x/Journal/journals/2026-01-01.md"),
        ("./v", "./v/a.md/"),
        ("/v/./", "/v/pages/b.md"),
    ];
    for (root, path) in cases {
        let c = vault_change(root, path).unwrap();
        assert_eq!(std::path::Path::new(root).join(&c.relative_path), std::path::Path::new(path));
        assert_eq!(std::path::Path::new(path).strip_prefix(root).unwrap(), std::path::Path::new(&c.relative_path));
    }
}
