use ramus_core::error::CoreError;
use ramus_core::journal_date::JournalDate;

#[test]
fn formats_as_iso_8601() {
    let date = JournalDate::from_ymd_opt(2026, 9, 2).unwrap();
    assert_eq!(date.to_file_stem(), "2026-09-02");
}

#[test]
fn succ_and_pred_are_inverse() {
    let date = JournalDate::from_ymd_opt(2026, 1, 1).unwrap();
    assert_eq!(date.succ().pred(), date);
}

#[test]
fn succ_and_pred_cross_months_and_leap_days() {
    let d = JournalDate::from_ymd_opt(2024, 2, 28).unwrap();
    assert_eq!(d.succ().to_file_stem(), "2024-02-29");
    assert_eq!(d.succ().succ().to_file_stem(), "2024-03-01");
    let d = JournalDate::from_ymd_opt(2025, 3, 1).unwrap();
    assert_eq!(d.pred().to_file_stem(), "2025-02-28");
    let d = JournalDate::from_ymd_opt(2025, 12, 31).unwrap();
    assert_eq!(d.succ().to_file_stem(), "2026-01-01");
}

#[test]
fn impossible_dates_are_refused() {
    assert!(JournalDate::from_ymd_opt(2025, 2, 29).is_none());
    assert!(JournalDate::from_ymd_opt(2026, 13, 1).is_none());
    assert!(JournalDate::from_ymd_opt(2026, 4, 31).is_none());
    assert!(JournalDate::from_ymd_opt(1900, 2, 29).is_none());
    assert!(JournalDate::from_ymd_opt(2000, 2, 29).is_some());
}

#[test]
fn parse_reads_back_the_file_stem() {
    let d = JournalDate::from_ymd_opt(987, 6, 5).unwrap();
    assert_eq!(d.to_file_stem(), "0987-06-05");
    assert_eq!(JournalDate::parse("0987-06-05"), Some(d));
    assert_eq!(JournalDate::parse("2026-01-04"), JournalDate::from_ymd_opt(2026, 1, 4));
}

#[test]
fn parse_refuses_other_texts() {
    assert_eq!(JournalDate::parse("README"), None);
    assert_eq!(JournalDate::parse("2026-1-04"), None);
    assert_eq!(JournalDate::parse("2026-02-30"), None);
    assert_eq!(JournalDate::parse("2026/01/04"), None);
}

#[test]
fn order_of_dates() {
    let a = JournalDate::from_ymd_opt(2026, 1, 3).unwrap();
    let b = JournalDate::from_ymd_opt(2026, 2, 1).unwrap();
    assert!(a.is_before(&b));
    assert!(!b.is_before(&a));
    assert!(!a.is_before(&a));
}

#[test]
fn today_is_a_real_day() {
    let today = JournalDate::today();
    let stem = today.to_file_stem();
    assert_eq!(JournalDate::parse(&stem), Some(today));
}

#[test]
fn first_and_last_representable_days_stay_put() {
    let first = JournalDate::from_ymd_opt(-262143, 1, 1).unwrap();
    assert_eq!(first.pred(), first);
    let last = JournalDate::from_ymd_opt(262142, 12, 31).unwrap();
    assert_eq!(last.succ(), last);
    assert!(JournalDate::from_ymd_opt(262143, 1, 1).is_none());
}

#[test]
fn date_parameter_is_parsed_or_refused_with_its_text() {
    assert!(matches!(JournalDate::parse_param(None), Ok(None)));
    assert_eq!(JournalDate::parse_param(Some("2026-01-04".to_string())).unwrap(), JournalDate::from_ymd_opt(2026, 1, 4));
    match JournalDate::parse_param(Some("non-una-data".to_string())) {
        Err(CoreError::InvalidDate(t)) => assert_eq!(t, "non-una-data"),
        other => panic!("unexpected: {other:?}"),
    }
}
