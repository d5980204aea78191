use cycle_tracker::calendar::Date;
use cycle_tracker::cycle::{get_cycle_summary, summarize_current_cycle};
use cycle_tracker::errors::{insert_outcome, ApiError, StoreFailure};
use cycle_tracker::models::{Cycle, CycleSummary};

fn date(year: i32, month: u32, day: u32) -> Date {
    Date::from_ymd(year, month, day).unwrap()
}

#[test]
fn fertile_window_begins_twelve_days_after_the_start() {
    let today = date(2024, 3, 20);
    assert!(!summarize_current_cycle(date(2024, 3, 9), today).in_fertile_window);
    assert!(summarize_current_cycle(date(2024, 3, 8), today).in_fertile_window);
    assert!(!summarize_current_cycle(date(2024, 3, 3), today).in_fertile_window);
}

#[test]
fn fertile_window_ends_sixteen_days_after_the_start() {
    let today = date(2024, 3, 20);
    assert!(summarize_current_cycle(date(2024, 3, 4), today).in_fertile_window);
    assert!(!summarize_current_cycle(date(2024, 3, 3), today).in_fertile_window);
}

#[test]
fn fertile_window_holds_every_day_between_its_ends() {
    let start = date(2024, 2, 20);
    let expected = [
        (date(2024, 3, 2), false),
        (date(2024, 3, 3), true),
        (date(2024, 3, 4), true),
        (date(2024, 3, 5), true),
        (date(2024, 3, 6), true),
        (date(2024, 3, 7), true),
        (date(2024, 3, 8), false),
    ];
    for (today, inside) in expected {
        assert_eq!(summarize_current_cycle(start, today).in_fertile_window, inside);
    }
}

#[test]
fn summary_counts_days_and_predicts_the_next_period() {
    let summary = summarize_current_cycle(date(2024, 1, 1), date(2024, 1, 11));
    assert_eq!(
        summary,
        CycleSummary {
            cycle_day: 10,
            in_fertile_window: false,
            period_expected_in_days: 16,
            start_date: date(2024, 1, 1),
        }
    );
}

#[test]
fn summary_on_the_day_the_cycle_starts() {
    let summary = summarize_current_cycle(date(2024, 1, 1), date(2024, 1, 1));
    assert_eq!(summary.cycle_day, 0);
    assert_eq!(summary.period_expected_in_days, 26);
    assert!(!summary.in_fertile_window);
}

#[test]
fn summary_after_the_expected_period() {
    let summary = summarize_current_cycle(date(2024, 1, 1), date(2024, 2, 10));
    assert_eq!(summary.cycle_day, 40);
    assert_eq!(summary.period_expected_in_days, -14);
    assert!(!summary.in_fertile_window);
}

#[test]
fn summary_of_a_cycle_that_starts_in_the_future() {
    let summary = summarize_current_cycle(date(2024, 1, 10), date(2024, 1, 1));
    assert_eq!(summary.cycle_day, -9);
    assert_eq!(summary.period_expected_in_days, 35);
    assert!(!summary.in_fertile_window);
    assert_eq!(summary.start_date, date(2024, 1, 10));
}

#[test]
fn summary_at_the_ends_of_the_calendar() {
    let summary = summarize_current_cycle(date(262142, 12, 31), date(-262143, 1, 1));
    assert_eq!(summary.cycle_day, -191_491_528);
    assert_eq!(summary.period_expected_in_days, 191_491_554);
    assert!(!summary.in_fertile_window);
    let late = summarize_current_cycle(date(262142, 12, 19), date(262142, 12, 31));
    assert_eq!(late.cycle_day, 12);
    assert!(late.in_fertile_window);
}

#[test]
fn no_cycle_gives_not_found() {
    assert_eq!(get_cycle_summary(Ok(None), date(2024, 1, 1)), Err(ApiError::NotFound));
}

#[test]
fn latest_cycle_is_summarized() {
    let cycle = Cycle { id: 1, user_id: 2, start_date: date(2024, 1, 1), created_at: 0 };
    assert_eq!(
        get_cycle_summary(Ok(Some(cycle)), date(2024, 1, 14)),
        Ok(CycleSummary {
            cycle_day: 13,
            in_fertile_window: true,
            period_expected_in_days: 13,
            start_date: date(2024, 1, 1),
        })
    );
}

#[test]
fn failures_map_to_their_status() {
    assert_eq!(ApiError::InvalidUserId.status_code(), 400);
    assert_eq!(ApiError::InvalidDate.status_code(), 400);
    assert_eq!(ApiError::WriteRejected.status_code(), 422);
    assert_eq!(ApiError::StoreUnavailable.status_code(), 500);
    assert_eq!(ApiError::NotFound.status_code(), 404);
}

#[test]
fn summary_fails_when_the_store_failed() {
    assert_eq!(
        get_cycle_summary(Err(StoreFailure), date(2024, 1, 1)),
        Err(ApiError::StoreUnavailable)
    );
}

#[test]
fn a_record_that_the_store_did_not_take_is_rejected() {
    assert_eq!(insert_outcome(Ok(())), Ok(()));
    assert_eq!(insert_outcome(Err(StoreFailure)), Err(ApiError::WriteRejected));
}
