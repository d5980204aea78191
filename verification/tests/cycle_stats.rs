use cycle_tracker::calendar::Date;
use cycle_tracker::cycle_stats::{
    compute_cycle_stats, count_logged, get_cycle_stats, Average, CycleStat, CycleStatsResponse,
};
use cycle_tracker::errors::{ApiError, StoreFailure};
use cycle_tracker::models::{BleedingLogEntry, Cycle};

fn date(year: i32, month: u32, day: u32) -> Date {
    Date::from_ymd(year, month, day).unwrap()
}

fn cycle(id: u128, year: i32, month: u32, day: u32) -> Cycle {
    Cycle { id, user_id: 7, start_date: date(year, month, day), created_at: id as i64 }
}

fn log(year: i32, month: u32, day: u32) -> BleedingLogEntry {
    BleedingLogEntry { date: date(year, month, day), intensity: None }
}

fn mean(average: Average) -> f64 {
    average.total as f64 / average.count as f64
}

fn three_cycles_logs() -> Vec<BleedingLogEntry> {
    vec![
        log(2024, 1, 1),
        log(2024, 1, 2),
        log(2024, 1, 3),
        log(2024, 1, 4),
        log(2024, 1, 5),
        log(2024, 1, 29),
        log(2024, 1, 30),
        log(2024, 1, 31),
        log(2024, 2, 1),
        log(2024, 2, 2),
        log(2024, 2, 3),
        log(2024, 2, 26),
        log(2024, 2, 27),
        log(2024, 2, 28),
        log(2024, 2, 29),
    ]
}

#[test]
fn two_closed_cycles_and_an_open_one() {
    let cycles = vec![cycle(1, 2024, 1, 1), cycle(2, 2024, 1, 29), cycle(3, 2024, 2, 26)];
    let response = compute_cycle_stats(cycles, &three_cycles_logs());
    assert_eq!(
        response.cycle_stats,
        vec![
            CycleStat { cycle_number: 1, period_length: 5, cycle_length: 28 },
            CycleStat { cycle_number: 2, period_length: 6, cycle_length: 28 },
            CycleStat { cycle_number: 3, period_length: 4, cycle_length: 0 },
        ]
    );
    assert_eq!(response.average_cycle_length, Average { total: 56, count: 3 });
    assert_eq!(response.average_period_length, Average { total: 15, count: 3 });
    assert_eq!(mean(response.average_cycle_length), (28.0 + 28.0 + 0.0) / 3.0);
    assert_eq!(mean(response.average_period_length), 5.0);
}

#[test]
fn no_cycles_give_zero_averages() {
    let response = compute_cycle_stats(Vec::new(), &three_cycles_logs());
    assert_eq!(
        response,
        CycleStatsResponse {
            average_period_length: Average { total: 0, count: 1 },
            average_cycle_length: Average { total: 0, count: 1 },
            cycle_stats: Vec::new(),
        }
    );
    assert_eq!(mean(response.average_period_length), 0.0);
    assert_eq!(mean(response.average_cycle_length), 0.0);
}

#[test]
fn cycles_are_ordered_by_start_whatever_order_they_come_in() {
    let cycles = vec![cycle(3, 2024, 2, 26), cycle(1, 2024, 1, 1), cycle(2, 2024, 1, 29)];
    let response = compute_cycle_stats(cycles, &three_cycles_logs());
    assert_eq!(
        response.cycle_stats,
        vec![
            CycleStat { cycle_number: 1, period_length: 5, cycle_length: 28 },
            CycleStat { cycle_number: 2, period_length: 6, cycle_length: 28 },
            CycleStat { cycle_number: 3, period_length: 4, cycle_length: 0 },
        ]
    );
}

#[test]
fn one_open_cycle_counts_every_later_log() {
    let logs = vec![log(2023, 12, 31), log(2024, 1, 1), log(2024, 6, 1), log(2030, 1, 1)];
    let response = compute_cycle_stats(vec![cycle(1, 2024, 1, 1)], &logs);
    assert_eq!(
        response.cycle_stats,
        vec![CycleStat { cycle_number: 1, period_length: 3, cycle_length: 0 }]
    );
    assert_eq!(response.average_period_length, Average { total: 3, count: 1 });
    assert_eq!(response.average_cycle_length, Average { total: 0, count: 1 });
}

#[test]
fn a_log_on_the_day_of_the_next_start_belongs_to_the_next_cycle() {
    let logs = vec![log(2024, 1, 28), log(2024, 1, 29)];
    let response = compute_cycle_stats(vec![cycle(1, 2024, 1, 1), cycle(2, 2024, 1, 29)], &logs);
    assert_eq!(
        response.cycle_stats,
        vec![
            CycleStat { cycle_number: 1, period_length: 1, cycle_length: 28 },
            CycleStat { cycle_number: 2, period_length: 1, cycle_length: 0 },
        ]
    );
}

#[test]
fn cycles_that_start_on_one_day() {
    let logs = vec![log(2024, 1, 1), log(2024, 1, 2)];
    let response = compute_cycle_stats(
        vec![cycle(1, 2024, 1, 1), cycle(2, 2024, 1, 1), cycle(3, 2024, 1, 15)],
        &logs,
    );
    assert_eq!(
        response.cycle_stats,
        vec![
            CycleStat { cycle_number: 1, period_length: 0, cycle_length: 0 },
            CycleStat { cycle_number: 2, period_length: 2, cycle_length: 14 },
            CycleStat { cycle_number: 3, period_length: 0, cycle_length: 0 },
        ]
    );
    assert_eq!(response.average_cycle_length, Average { total: 14, count: 3 });
    assert_eq!(response.average_period_length, Average { total: 2, count: 3 });
}

#[test]
fn totals_are_the_span_of_the_starts_and_the_logs_since_the_first() {
    let cycles = vec![
        cycle(4, 2024, 4, 2),
        cycle(1, 2024, 1, 1),
        cycle(3, 2024, 3, 1),
        cycle(2, 2024, 1, 29),
    ];
    let mut logs = three_cycles_logs();
    logs.push(log(2023, 11, 11));
    logs.push(log(2024, 4, 2));
    let response = compute_cycle_stats(cycles, &logs);
    assert_eq!(
        response.average_cycle_length.total as i64,
        date(2024, 4, 2).days_since(&date(2024, 1, 1))
    );
    assert_eq!(response.average_period_length.total, 16);
    assert_eq!(response.average_cycle_length.count, 4);
    let lengths: Vec<i32> = response.cycle_stats.iter().map(|s| s.cycle_length).collect();
    assert_eq!(lengths, vec![28, 32, 32, 0]);
    let periods: Vec<i32> = response.cycle_stats.iter().map(|s| s.period_length).collect();
    assert_eq!(periods, vec![5, 10, 0, 1]);
}

#[test]
fn count_logged_takes_the_start_and_leaves_the_end() {
    let logs = vec![log(2024, 1, 1), log(2024, 1, 5), log(2024, 1, 10), log(2024, 1, 5)];
    assert_eq!(count_logged(&logs, date(2024, 1, 5), Some(date(2024, 1, 10))), 2);
    assert_eq!(count_logged(&logs, date(2024, 1, 5), None), 3);
    assert_eq!(count_logged(&logs, date(2024, 1, 1), Some(date(2024, 1, 1))), 0);
    assert_eq!(count_logged(&logs, date(2023, 1, 1), Some(date(2025, 1, 1))), 4);
    assert_eq!(count_logged(&Vec::new(), date(2023, 1, 1), None), 0);
}

#[test]
fn average_of_no_values_is_zero() {
    assert_eq!(Average::of(0, 0), Average { total: 0, count: 1 });
    assert_eq!(Average::of(9, 0), Average { total: 0, count: 1 });
    assert_eq!(Average::of(56, 3), Average { total: 56, count: 3 });
}

#[test]
fn stats_of_fetched_records_are_computed() {
    let cycles = vec![cycle(1, 2024, 1, 1), cycle(2, 2024, 1, 29)];
    let logs = three_cycles_logs();
    assert_eq!(
        get_cycle_stats(Ok(cycles.clone()), Ok(logs.clone())),
        Ok(compute_cycle_stats(cycles, &logs))
    );
}

#[test]
fn stats_fail_when_the_store_failed() {
    let cycles = vec![cycle(1, 2024, 1, 1)];
    assert_eq!(
        get_cycle_stats(Err(StoreFailure), Ok(three_cycles_logs())),
        Err(ApiError::StoreUnavailable)
    );
    assert_eq!(get_cycle_stats(Ok(cycles), Err(StoreFailure)), Err(ApiError::StoreUnavailable));
    assert_eq!(
        get_cycle_stats(Err(StoreFailure), Err(StoreFailure)),
        Err(ApiError::StoreUnavailable)
    );
}
