use chrono::{Datelike, NaiveDate};
use cycle_tracker::calendar::Date;
use cycle_tracker::identifiers::parse_uuid;
use cycle_tracker::sorting::sort_by_date;

fn date(year: i32, month: u32, day: u32) -> Date {
    Date::from_ymd(year, month, day).unwrap()
}

#[test]
fn from_ymd_keeps_year_month_and_day() {
    let d = date(2024, 2, 29);
    assert_eq!(d.year(), 2024);
    assert_eq!(d.month(), 2);
    assert_eq!(d.day(), 29);
}

#[test]
fn from_ymd_refuses_days_that_do_not_exist() {
    assert!(Date::from_ymd(2023, 2, 29).is_none());
    assert!(Date::from_ymd(2024, 2, 30).is_none());
    assert!(Date::from_ymd(1900, 2, 29).is_none());
    assert!(Date::from_ymd(2000, 2, 29).is_some());
    assert!(Date::from_ymd(2024, 4, 31).is_none());
    assert!(Date::from_ymd(2024, 0, 1).is_none());
    assert!(Date::from_ymd(2024, 13, 1).is_none());
    assert!(Date::from_ymd(2024, 1, 0).is_none());
    assert!(Date::from_ymd(2024, 1, 32).is_none());
    assert!(Date::from_ymd(-4, 2, 29).is_some());
}

#[test]
fn from_ymd_refuses_years_out_of_range() {
    assert!(Date::from_ymd(262142, 12, 31).is_some());
    assert!(Date::from_ymd(262143, 1, 1).is_none());
    assert!(Date::from_ymd(-262143, 1, 1).is_some());
    assert!(Date::from_ymd(-262144, 12, 31).is_none());
}

#[test]
fn days_since_counts_calendar_days() {
    assert_eq!(date(2024, 1, 2).days_since(&date(2024, 1, 1)), 1);
    assert_eq!(date(2024, 1, 1).days_since(&date(2024, 1, 2)), -1);
    assert_eq!(date(2024, 1, 1).days_since(&date(2024, 1, 1)), 0);
    assert_eq!(date(2024, 3, 1).days_since(&date(2024, 2, 1)), 29);
    assert_eq!(date(2023, 3, 1).days_since(&date(2023, 2, 1)), 28);
    assert_eq!(date(2025, 1, 1).days_since(&date(2024, 1, 1)), 366);
    assert_eq!(date(2014, 1, 1).days_since(&date(1614, 1, 1)), 365 * 400 + 97);
    assert_eq!(date(1970, 1, 1).days_since(&date(1, 1, 1)), 719_162);
    assert_eq!(date(1, 1, 1).days_since(&date(0, 1, 1)), 366);
    assert_eq!(date(0, 1, 1).days_since(&date(-1, 1, 1)), 365);
    assert_eq!(date(262142, 12, 31).days_since(&date(-262143, 1, 1)), 191_491_528);
}

#[test]
fn days_since_agrees_with_the_day_count_from_year_one() {
    let origin = date(1, 1, 1);
    let dates = [
        (1, 1, 1),
        (4, 2, 29),
        (100, 3, 1),
        (400, 12, 31),
        (1999, 12, 31),
        (2024, 7, 4),
        (-1, 6, 15),
        (-400, 1, 1),
        (-262143, 1, 1),
        (262142, 12, 31),
    ];
    let first_day = NaiveDate::from_ymd_opt(1, 1, 1).unwrap();
    for (y, m, d) in dates {
        let expected = NaiveDate::from_ymd_opt(y, m, d).unwrap();
        let y1 = (y - 1) as i64;
        let before_year = 365 * y1 + y1.div_euclid(4) - y1.div_euclid(100) + y1.div_euclid(400);
        let diff = date(y, m, d).days_since(&origin);
        assert_eq!(diff, expected.signed_duration_since(first_day).num_days());
        let ordinal = expected.ordinal() as i64;
        assert_eq!(diff + 1, before_year + ordinal);
    }
}

#[test]
fn parse_reads_year_month_and_day() {
    assert_eq!(Date::parse("2024-01-05"), Some(date(2024, 1, 5)));
    assert_eq!(Date::parse("1999-12-31"), Some(date(1999, 12, 31)));
}

#[test]
fn parse_refuses_what_is_no_date() {
    assert_eq!(Date::parse(""), None);
    assert_eq!(Date::parse("yesterday"), None);
    assert_eq!(Date::parse("2024-13-01"), None);
    assert_eq!(Date::parse("2023-02-29"), None);
    assert_eq!(Date::parse("2024/01/05"), None);
    assert_eq!(Date::parse("2024-01-05T10:00:00"), None);
}

#[test]
fn parse_uuid_reads_the_number() {
    assert_eq!(
        parse_uuid("67e55044-10b1-426f-9247-bb680e5fe0c8"),
        Some(0x67e5504410b1426f9247bb680e5fe0c8u128)
    );
    assert_eq!(
        parse_uuid("67e5504410b1426f9247bb680e5fe0c8"),
        Some(0x67e5504410b1426f9247bb680e5fe0c8u128)
    );
    assert_eq!(parse_uuid("00000000-0000-0000-0000-000000000000"), Some(0));
}

#[test]
fn parse_uuid_refuses_what_is_no_uuid() {
    assert_eq!(parse_uuid(""), None);
    assert_eq!(parse_uuid("not-a-uuid"), None);
    assert_eq!(parse_uuid("67e55044-10b1-426f-9247-bb680e5fe0c"), None);
    assert_eq!(parse_uuid("67e55044-10b1-426f-9247-bb680e5fe0cg"), None);
}

#[test]
fn sort_by_date_orders_dates() {
    let sorted = sort_by_date(vec![
        date(2024, 3, 1),
        date(2023, 12, 31),
        date(2024, 2, 29),
        date(2024, 1, 1),
        date(2023, 12, 31),
    ]);
    assert_eq!(
        sorted,
        vec![
            date(2023, 12, 31),
            date(2023, 12, 31),
            date(2024, 1, 1),
            date(2024, 2, 29),
            date(2024, 3, 1),
        ]
    );
}

#[test]
fn sort_by_date_of_nothing_is_nothing() {
    assert_eq!(sort_by_date(Vec::<Date>::new()), Vec::<Date>::new());
}
