use ramus_core::block::Block;
use ramus_core::journal_date::JournalDate;
use ramus_core::parser::{parse, render};
use ramus_core::rollover::{extract_unfinished_tasks, is_unfinished_task, lookback_dates, roll_over_unfinished_tasks, today_after_rollover, RolloverOutcome};
use ramus_core::vault::Vault;

/// The pages that exist among the `days_back` days before `today`, as the
/// caller reads them: (path, blocks), oldest first.
fn sources(today: &JournalDate, days_back: u32, files: &[(JournalDate, &str)]) -> Vec<(String, Vec<Block>)> {
    let mut out = Vec::new();
    for date in lookback_dates(today, days_back) {
        for (d, text) in files {
            if *d == date {
                out.push((Vault::journal_relative_path(date), parse(text).unwrap()));
            }
        }
    }
    out
}

/// Today's journal text after the rollover, when it had no file before.
fn today_after(moved: Vec<Block>) -> String {
    let (page, _) = Vault::new(String::from("/v")).open_today(&JournalDate::today(), None).unwrap();
    render(&today_after_rollover(page.blocks, moved))
}

#[test]
fn moves_unfinished_task_from_yesterday_to_today() {
    let today = JournalDate::today();
    let yesterday = today.pred();
    let plan = roll_over_unfinished_tasks(sources(&today, 7, &[(yesterday, "- [ ] Comprare il latte\n- Nota normale\n")]));
    assert_eq!(plan.outcome.moved_count, 1);
    let today_content = today_after(plan.moved);
    assert!(today_content.contains("[ ] Comprare il latte"));
    assert_eq!(plan.rewrites.len(), 1);
    assert_eq!(plan.rewrites[0].0, Vault::journal_relative_path(yesterday));
    let yesterday_content = render(&plan.rewrites[0].1);
    assert!(!yesterday_content.contains("[ ] Comprare il latte"));
    assert!(yesterday_content.contains("Nota normale"));
}

#[test]
fn leaves_done_tasks_and_normal_blocks_in_place() {
    let today = JournalDate::today();
    let yesterday = today.pred();
    let plan = roll_over_unfinished_tasks(sources(&today, 7, &[(yesterday, "- [x] Fatto\n- Nota normale\n")]));
    assert_eq!(plan.outcome.moved_count, 0);
    assert!(plan.rewrites.is_empty());
}

#[test]
fn moves_subtree_together_with_its_task_root() {
    let today = JournalDate::today();
    let yesterday = today.pred();
    let plan = roll_over_unfinished_tasks(sources(
        &today,
        7,
        &[(yesterday, "- [ ] Preparare la presentazione\n  - Slide 1\n  - Slide 2\n")],
    ));
    let today_content = today_after(plan.moved);
    assert!(today_content.contains("[ ] Preparare la presentazione"));
    assert!(today_content.contains("Slide 1"));
    assert!(today_content.contains("Slide 2"));
}

#[test]
fn finds_task_nested_under_a_non_task_block() {
    let today = JournalDate::today();
    let yesterday = today.pred();
    let plan = roll_over_unfinished_tasks(sources(
        &today,
        7,
        &[(yesterday, "- Riunione con il cliente\n  - [ ] Mandare il preventivo\n")],
    ));
    assert_eq!(plan.outcome.moved_count, 1);
    let yesterday_content = render(&plan.rewrites[0].1);
    assert!(yesterday_content.contains("Riunione con il cliente"));
    assert!(!yesterday_content.contains("[ ] Mandare il preventivo"));
    let today_content = today_after(plan.moved);
    assert!(today_content.contains("[ ] Mandare il preventivo"));
}

#[test]
fn ignores_days_outside_the_lookback_window() {
    let today = JournalDate::today();
    let mut too_old = today;
    for _ in 0..10 {
        too_old = too_old.pred();
    }
    let plan = roll_over_unfinished_tasks(sources(&today, 7, &[(too_old, "- [ ] Task troppo vecchio\n")]));
    assert_eq!(plan.outcome.moved_count, 0);
    assert!(plan.rewrites.is_empty());
}

#[test]
fn no_op_on_a_vault_with_no_unfinished_tasks_writes_nothing() {
    let today = JournalDate::today();
    let yesterday = today.pred();
    let plan = roll_over_unfinished_tasks(sources(&today, 7, &[(yesterday, "- Solo una nota\n")]));
    assert_eq!(plan.outcome, RolloverOutcome { moved_count: 0 });
    assert!(plan.moved.is_empty());
    assert!(plan.rewrites.is_empty());
}

#[test]
fn collects_tasks_from_multiple_days_oldest_first() {
    let today = JournalDate::today();
    let yesterday = today.pred();
    let two_days_ago = yesterday.pred();
    let plan = roll_over_unfinished_tasks(sources(
        &today,
        7,
        &[(yesterday, "- [ ] Il più recente\n"), (two_days_ago, "- [ ] Il più vecchio\n")],
    ));
    assert_eq!(plan.outcome.moved_count, 2);
    let today_content = today_after(plan.moved);
    let pos_oldest = today_content.find("Il più vecchio").unwrap();
    let pos_recent = today_content.find("Il più recente").unwrap();
    assert!(pos_oldest < pos_recent);
}

#[test]
fn lookback_dates_are_the_days_before_today_oldest_first() {
    let today = JournalDate::from_ymd_opt(2026, 3, 2).unwrap();
    let stems: Vec<String> = lookback_dates(&today, 3).into_iter().map(|d| d.to_file_stem()).collect();
    assert_eq!(stems, vec!["2026-02-27", "2026-02-28", "2026-03-01"]);
    assert!(lookback_dates(&today, 0).is_empty());
}

#[test]
fn unfinished_task_marker() {
    assert!(is_unfinished_task("[ ] fare"));
    assert!(!is_unfinished_task("[ ]fare"));
    assert!(!is_unfinished_task("[x] fatto"));
    assert!(!is_unfinished_task(" [ ] rientrato"));
}

#[test]
fn extraction_keeps_the_rest_of_the_tree() {
    let blocks = parse("- a\n  - [ ] t1\n    - figlio\n  - b\n- [ ] t2\n").unwrap();
    let (remaining, extracted) = extract_unfinished_tasks(blocks);
    assert_eq!(render(&remaining), "- a\n  - b\n");
    assert_eq!(render(&extracted), "- [ ] t1\n  - figlio\n- [ ] t2\n");
}

#[test]
fn moved_tasks_go_after_the_blocks_of_today() {
    let today = JournalDate::today();
    let yesterday = today.pred();
    let before = today.pred().pred();
    let plan = roll_over_unfinished_tasks(sources(
        &today,
        7,
        &[(before, "- [ ] Primo\n"), (yesterday, "- [ ] Secondo\n  - dettaglio\n")],
    ));
    let today_blocks = parse("- Nota di oggi\n").unwrap();
    let after = today_after_rollover(today_blocks, plan.moved);
    assert_eq!(render(&after), "- Nota di oggi\n- [ ] Primo\n- [ ] Secondo\n  - dettaglio\n");
}

#[test]
fn a_new_journal_of_today_starts_with_one_empty_block() {
    let moved = parse("- [ ] Compito\n").unwrap();
    assert_eq!(today_after(moved), "- \n- [ ] Compito\n");
}
