use ramus_core::config::{
    default_git_sync_interval_minutes, default_shortcuts, default_task_rollover_days, default_task_rollover_enabled,
    Config, Shortcuts, StoredConfig, Theme,
};

fn stored(vault_path: &str) -> StoredConfig {
    StoredConfig {
        vault_path: vault_path.to_string(),
        theme: None,
        shortcuts: None,
        search_shortcut: None,
        git_sync_interval_minutes: None,
        task_rollover_enabled: None,
        task_rollover_days: None,
    }
}

#[test]
fn config_without_theme_field_defaults_to_system() {
    let (config, _) = Config::from_stored(stored("/home/x/Journal"));
    assert_eq!(config.theme, Theme::System);
}

#[test]
fn config_without_shortcuts_field_defaults_to_all_registered_actions() {
    let (config, _) = Config::from_stored(stored("/home/x/Journal"));
    assert_eq!(config.shortcuts.get("command_palette"), Some(&"Mod+K".to_string()));
    assert_eq!(config.shortcuts.get("cheatsheet"), Some(&"Mod+/".to_string()));
    assert_eq!(config.shortcuts.get("focus_mode"), Some(&"Mod+.".to_string()));
    assert_eq!(config.shortcuts.get("journal_prev_day"), Some(&"Mod+ArrowUp".to_string()));
    assert_eq!(config.shortcuts.get("journal_next_day"), Some(&"Mod+ArrowDown".to_string()));
}

#[test]
fn config_without_git_sync_interval_field_defaults_to_ten_minutes() {
    let (config, _) = Config::from_stored(stored("/home/x/Journal"));
    assert_eq!(config.git_sync_interval_minutes, 10);
}

#[test]
fn config_without_task_rollover_fields_defaults_to_enabled_seven_days() {
    let (config, _) = Config::from_stored(stored("/home/x/Journal"));
    assert!(config.task_rollover_enabled);
    assert_eq!(config.task_rollover_days, 7);
}

#[test]
fn load_migrates_search_shortcut_into_shortcuts_and_rewrites_file() {
    let mut old = stored("/home/x/Journal");
    old.search_shortcut = Some("Mod+P".to_string());
    let (config, migrated) = Config::from_stored(old);
    assert!(migrated);
    assert_eq!(config.shortcuts.get("command_palette"), Some(&"Mod+P".to_string()));
    assert_eq!(config.shortcuts.get("cheatsheet"), None);
    let rewritten = config.to_stored();
    assert!(rewritten.search_shortcut.is_none());
    let (reloaded, migrated_again) = Config::from_stored(rewritten);
    assert!(!migrated_again);
    assert_eq!(reloaded.shortcuts.get("command_palette"), Some(&"Mod+P".to_string()));
}

#[test]
fn load_without_search_shortcut_or_shortcuts_uses_defaults_without_rewriting() {
    let (config, migrated) = Config::from_stored(stored("/home/x/Journal"));
    assert!(!migrated);
    assert_eq!(config.shortcuts.get("command_palette"), Some(&"Mod+K".to_string()));
}

#[test]
fn load_already_in_new_format_is_left_untouched() {
    let mut current = stored("/home/x/Journal");
    current.shortcuts = Some(vec![("command_palette".to_string(), "Mod+J".to_string())]);
    let (config, migrated) = Config::from_stored(current);
    assert!(!migrated);
    assert_eq!(config.shortcuts.get("command_palette"), Some(&"Mod+J".to_string()));
}

#[test]
fn old_single_shortcut_is_ignored_when_the_table_exists() {
    let mut both = stored("/home/x/Journal");
    both.shortcuts = Some(vec![("command_palette".to_string(), "Mod+J".to_string())]);
    both.search_shortcut = Some("Mod+P".to_string());
    let (config, migrated) = Config::from_stored(both);
    assert!(!migrated);
    assert_eq!(config.shortcuts.get("command_palette"), Some(&"Mod+J".to_string()));
}

#[test]
fn updating_one_shortcut_key_leaves_others_untouched_on_disk() {
    let mut config = Config::initial("/tmp/vault".to_string());
    config.set_shortcut("command_palette".to_string(), "Mod+J".to_string());
    let (reloaded, _) = Config::from_stored(config.to_stored());
    assert_eq!(reloaded.shortcuts.get("command_palette"), Some(&"Mod+J".to_string()));
    assert_eq!(reloaded.shortcuts.get("cheatsheet"), Some(&"Mod+/".to_string()));
}

#[test]
fn load_or_init_initialises_a_fresh_installation_and_asks_to_save_it() {
    let (config, write) = Config::load_or_init(None, "/home/x/Journal".to_string());
    assert!(write);
    assert_eq!(config.vault_path, "/home/x/Journal");
    assert_eq!(config.theme, Theme::System);
    assert_eq!(config.shortcuts.entries().len(), 5);
    let (loaded, write) = Config::load_or_init(Some(config.to_stored()), "/altrove".to_string());
    assert!(!write);
    assert_eq!(loaded.vault_path, "/home/x/Journal");
}

#[test]
fn setters_change_one_setting() {
    let mut config = Config::initial("/a".to_string());
    config.set_vault_path("/b".to_string());
    config.set_theme(Theme::Dark);
    config.set_git_sync_interval_minutes(30);
    config.set_task_rollover(false, 3);
    assert_eq!(config.vault_path, "/b");
    assert_eq!(config.theme, Theme::Dark);
    assert_eq!(config.git_sync_interval_minutes, 30);
    assert!(!config.task_rollover_enabled);
    assert_eq!(config.task_rollover_days, 3);
    assert_eq!(config.shortcuts.get("focus_mode"), Some(&"Mod+.".to_string()));
}

#[test]
fn defaults_and_theme_default() {
    assert_eq!(default_git_sync_interval_minutes(), 10);
    assert!(default_task_rollover_enabled());
    assert_eq!(default_task_rollover_days(), 7);
    assert_eq!(default_shortcuts().entries().len(), 5);
    assert_eq!(Theme::default(), Theme::System);
}

#[test]
fn shortcut_table_replaces_and_later_pairs_win() {
    let mut s = Shortcuts::new();
    s.insert("a".to_string(), "1".to_string());
    s.insert("b".to_string(), "2".to_string());
    s.insert("a".to_string(), "3".to_string());
    assert_eq!(s.get("a"), Some(&"3".to_string()));
    assert_eq!(s.entries().len(), 2);
    let t = Shortcuts::from_entries(vec![("x".to_string(), "1".to_string()), ("x".to_string(), "2".to_string())]);
    assert_eq!(t.get("x"), Some(&"2".to_string()));
    assert_eq!(t.clone().get("x"), Some(&"2".to_string()));
}
