use ramus_core::git_sync::{
    commit_message, epoch_secs_from, gitignore_update, is_due, now_epoch_secs, sync_cycle_step, CycleAction,
    CycleEvent, PullResult, SyncState, SyncStatus,
};

#[test]
fn is_due_false_when_not_dirty() {
    let status = SyncStatus { enabled: true, last_commit_at: Some(0), dirty: false };
    assert!(!is_due(&status, 10, 100_000));
}

#[test]
fn is_due_true_when_dirty_and_never_committed() {
    let status = SyncStatus { enabled: true, last_commit_at: None, dirty: true };
    assert!(is_due(&status, 10, 0));
}

#[test]
fn is_due_false_when_dirty_but_interval_not_elapsed() {
    let status = SyncStatus { enabled: true, last_commit_at: Some(1_000), dirty: true };
    assert!(!is_due(&status, 10, 1_000 + 5 * 60));
}

#[test]
fn is_due_true_when_dirty_and_interval_elapsed() {
    let status = SyncStatus { enabled: true, last_commit_at: Some(1_000), dirty: true };
    assert!(is_due(&status, 10, 1_000 + 10 * 60));
}

#[test]
fn is_due_saturates_instead_of_overflowing() {
    let status = SyncStatus { enabled: true, last_commit_at: Some(i64::MIN), dirty: true };
    assert!(is_due(&status, u32::MAX, i64::MAX));
    let status = SyncStatus { enabled: true, last_commit_at: Some(i64::MAX), dirty: true };
    assert!(!is_due(&status, 0, i64::MIN));
    assert!(is_due(&SyncStatus { enabled: true, last_commit_at: Some(5), dirty: true }, 0, 5));
}

#[test]
fn gitignore_gets_the_rule_appended_once() {
    let first = gitignore_update("").unwrap();
    assert_eq!(first, ".ramus/\n");
    assert_eq!(gitignore_update(&first), None);
}

#[test]
fn gitignore_keeps_existing_rules_and_adds_missing_newline() {
    assert_eq!(gitignore_update("node_modules/").unwrap(), "node_modules/\n.ramus/\n");
    assert_eq!(gitignore_update("node_modules/\n").unwrap(), "node_modules/\n.ramus/\n");
    let updated = gitignore_update("node_modules/\n").unwrap();
    assert!(updated.contains("node_modules/"));
    assert!(updated.contains(".ramus/"));
}

#[test]
fn gitignore_recognises_a_trimmed_rule() {
    assert_eq!(gitignore_update("a\n  .ramus/  \nb\n"), None);
    assert_eq!(gitignore_update("x.ramus/\n").unwrap(), "x.ramus/\n.ramus/\n");
}

#[test]
fn commit_message_counts_files() {
    assert_eq!(commit_message(3), "Ramus: sync automatico — 3 file modificati");
    assert!(commit_message(12).contains("sync automatico"));
}

#[test]
fn sync_cycle_pulls_then_commits_then_pushes() {
    let (s, a) = sync_cycle_step(SyncState::Idle, &CycleEvent::Start { is_repo: true, has_remote: true });
    assert_eq!((s, a), (SyncState::Syncing, CycleAction::Pull));
    let (s, a) = sync_cycle_step(s, &CycleEvent::Pulled(PullResult::Clean));
    assert_eq!((s, a), (SyncState::Idle, CycleAction::ReadStatus));
    let status = SyncStatus { enabled: true, last_commit_at: None, dirty: true };
    let (s, a) = sync_cycle_step(s, &CycleEvent::StatusRead { status: Some(status), interval_minutes: 10, now_epoch_secs: 0 });
    assert_eq!((s, a), (SyncState::Idle, CycleAction::Commit));
    let (s, a) = sync_cycle_step(s, &CycleEvent::Committed { committed: true, has_remote: true });
    assert_eq!((s, a), (SyncState::Idle, CycleAction::Push));
    let (s, a) = sync_cycle_step(s, &CycleEvent::Pushed { ok: false });
    assert_eq!((s, a), (SyncState::Offline, CycleAction::Stop));
}

#[test]
fn sync_cycle_stops_on_conflict_and_outside_repositories() {
    assert_eq!(
        sync_cycle_step(SyncState::Idle, &CycleEvent::Pulled(PullResult::Conflict)),
        (SyncState::Conflict, CycleAction::Stop)
    );
    assert_eq!(
        sync_cycle_step(SyncState::Conflict, &CycleEvent::Start { is_repo: true, has_remote: false }),
        (SyncState::Conflict, CycleAction::Stop)
    );
    assert_eq!(
        sync_cycle_step(SyncState::Idle, &CycleEvent::Start { is_repo: false, has_remote: true }),
        (SyncState::Idle, CycleAction::Stop)
    );
    assert_eq!(
        sync_cycle_step(SyncState::Offline, &CycleEvent::Pulled(PullResult::Failed)),
        (SyncState::Offline, CycleAction::ReadStatus)
    );
    assert_eq!(
        sync_cycle_step(SyncState::Idle, &CycleEvent::Committed { committed: true, has_remote: false }),
        (SyncState::Idle, CycleAction::Stop)
    );
    let clean = SyncStatus { enabled: true, last_commit_at: Some(0), dirty: false };
    assert_eq!(
        sync_cycle_step(SyncState::Idle, &CycleEvent::StatusRead { status: Some(clean), interval_minutes: 1, now_epoch_secs: 1000 }),
        (SyncState::Idle, CycleAction::Stop)
    );
}

#[test]
fn epoch_seconds_from_the_clock() {
    assert_eq!(epoch_secs_from(Some(1_700_000_000)), 1_700_000_000);
    assert_eq!(epoch_secs_from(None), 0);
    assert_eq!(epoch_secs_from(Some(u64::MAX)), -1);
    assert!(now_epoch_secs() > 1_600_000_000);
}
