//! Calendar dates of the proleptic Gregorian calendar and the number of days
//! between them. The arithmetic itself is done by `chrono`; the contracts say
//! what it computes in terms of the day count defined here.

use chrono::Datelike;
use vstd::prelude::*;

verus! {

/// The error that `chrono` reports for a text that it cannot read.
#[verifier::external_type_specification]
#[verifier::external_body]
pub struct ExParseError(chrono::ParseError);

/// What `chrono` reads from a text as a date written as year, month and day
/// with hyphens between them: the three numbers, or nothing where it reports
/// an error.
pub uninterp spec fn date_in_text(text: Seq<char>) -> Option<(int, int, int)>;

/// The earliest year a [`Date`] can lie in.
pub const MIN_YEAR: i32 = -262143;

/// The latest year a [`Date`] can lie in.
pub const MAX_YEAR: i32 = 262142;

/// Whether `year` has a 29th of February.
pub open spec fn is_leap_year(year: int) -> bool {
    year % 4 == 0 && (year % 100 != 0 || year % 400 == 0)
}

/// The number of days of `month` (1 to 12) in `year`.
pub open spec fn days_in_month(year: int, month: int) -> int {
    if month == 2 {
        if is_leap_year(year) { 29 } else { 28 }
    } else if month == 4 || month == 6 || month == 9 || month == 11 {
        30
    } else {
        31
    }
}

/// Whether the day exists in the calendar and its year is in range.
pub open spec fn is_calendar_date(year: int, month: int, day: int) -> bool {
    &&& MIN_YEAR <= year <= MAX_YEAR
    &&& 1 <= month <= 12
    &&& 1 <= day <= days_in_month(year, month)
}

/// The days of `year` that lie before the first of `month`.
pub open spec fn days_before_month(year: int, month: int) -> int
    decreases month,
{
    if month <= 1 {
        0
    } else {
        days_before_month(year, month - 1) + days_in_month(year, month - 1)
    }
}

/// The days from 1 January of year 1 up to, and not including, 1 January of `year`.
pub open spec fn days_before_year(year: int) -> int {
    let y = year - 1;
    365 * y + y / 4 - y / 100 + y / 400
}

/// The day count of a calendar date: 1 January of year 1 is day 1, and each
/// following day counts one more.
pub open spec fn civil_day_number(year: int, month: int, day: int) -> int {
    days_before_year(year) + days_before_month(year, month) + day
}

/// No month begins more than 335 days into its year.
pub proof fn lemma_days_before_month(year: int, month: int)
    requires
        1 <= month <= 12,
    ensures
        0 <= days_before_month(year, month) <= 335,
{
    reveal_with_fuel(days_before_month, 13);
}

/// The day count of every date of the calendar lies within 96 million days
/// of day 0, so the days between any two dates fit in 32 bits.
pub proof fn lemma_civil_day_number_range(year: int, month: int, day: int)
    requires
        is_calendar_date(year, month, day),
    ensures
        -96_000_000 < civil_day_number(year, month, day) < 96_000_000,
{
    lemma_days_before_month(year, month);
}

/// The number of days of `year`.
pub open spec fn days_in_year(year: int) -> int {
    if is_leap_year(year) {
        366
    } else {
        365
    }
}

/// Whether the first date comes earlier in the calendar than the second:
/// in an earlier year, or in the same year in an earlier month, or in the
/// same month on an earlier day.
pub open spec fn is_earlier_date(first: (int, int, int), second: (int, int, int)) -> bool {
    first.0 < second.0 || (first.0 == second.0 && (first.1 < second.1 || (first.1 == second.1
        && first.2 < second.2)))
}

/// A year begins where the year before it ends.
pub proof fn lemma_days_before_next_year(year: int)
    ensures
        days_before_year(year + 1) == days_before_year(year) + days_in_year(year),
{
}

/// The day counts at which years begin grow with the years.
pub proof fn lemma_days_before_year_grows(first: int, second: int)
    requires
        first <= second,
    ensures
        days_before_year(first) <= days_before_year(second),
    decreases second - first,
{
    if first < second {
        lemma_days_before_year_grows(first, second - 1);
        lemma_days_before_next_year(second - 1);
    }
}

/// A month begins where the month before it ends, the months of a year make
/// up the year, and a later month begins after an earlier one has ended.
pub proof fn lemma_days_before_later_month(year: int, first: int, second: int)
    requires
        1 <= first <= second <= 12,
    ensures
        first < second ==> days_before_month(year, first) + days_in_month(year, first)
            <= days_before_month(year, second),
        days_before_month(year, second) + days_in_month(year, second) <= days_in_year(year),
    decreases second - first,
{
    reveal_with_fuel(days_before_month, 13);
    if first < second {
        lemma_days_before_later_month(year, first, second - 1);
    }
}

/// The day count orders the dates as the calendar does: an earlier date has
/// a smaller day count, and no two dates share one.
pub proof fn lemma_day_number_orders_dates(first: (int, int, int), second: (int, int, int))
    requires
        is_calendar_date(first.0, first.1, first.2),
        is_calendar_date(second.0, second.1, second.2),
    ensures
        is_earlier_date(first, second) <==> civil_day_number(first.0, first.1, first.2)
            < civil_day_number(second.0, second.1, second.2),
        first == second <==> civil_day_number(first.0, first.1, first.2) == civil_day_number(
            second.0,
            second.1,
            second.2,
        ),
{
    lemma_earlier_date_has_smaller_day_number(first, second);
    lemma_earlier_date_has_smaller_day_number(second, first);
}

/// An earlier date has a smaller day count.
proof fn lemma_earlier_date_has_smaller_day_number(
    first: (int, int, int),
    second: (int, int, int),
)
    requires
        is_calendar_date(first.0, first.1, first.2),
        is_calendar_date(second.0, second.1, second.2),
    ensures
        is_earlier_date(first, second) ==> civil_day_number(first.0, first.1, first.2)
            < civil_day_number(second.0, second.1, second.2),
{
    lemma_days_before_month(second.0, second.1);
    lemma_days_before_later_month(first.0, first.1, first.1);
    if first.0 < second.0 {
        lemma_days_before_next_year(first.0);
        lemma_days_before_year_grows(first.0 + 1, second.0);
    } else if first.0 == second.0 && first.1 < second.1 {
        lemma_days_before_later_month(first.0, first.1, second.1);
    }
}

/// A day of the calendar.
#[derive(Clone, Copy, Debug, PartialEq, Eq, Structural)]
pub struct Date {
    year: i32,
    month: u32,
    day: u32,
}

impl Date {
    /// Year, month and day of the date.
    pub closed spec fn ymd(self) -> (int, int, int) {
        (self.year as int, self.month as int, self.day as int)
    }

    /// The date names a day that exists.
    #[verifier::type_invariant]
    pub closed spec fn is_valid(self) -> bool {
        is_calendar_date(self.year as int, self.month as int, self.day as int)
    }

    /// The day count of the date.
    pub open spec fn day_number(self) -> int {
        civil_day_number(self.ymd().0, self.ymd().1, self.ymd().2)
    }

    /// The day count of a date lies within 96 million days of day 0.
    pub proof fn lemma_day_number_range(self)
        requires
            self.is_valid(),
        ensures
            -96_000_000 < self.day_number() < 96_000_000,
    {
        lemma_civil_day_number_range(self.year as int, self.month as int, self.day as int);
    }

    /// An earlier date has a smaller day count, and no two dates share one.
    pub proof fn lemma_day_number_orders(self, other: Date)
        requires
            self.is_valid(),
            other.is_valid(),
        ensures
            is_earlier_date(self.ymd(), other.ymd()) <==> self.day_number() < other.day_number(),
            self == other <==> self.day_number() == other.day_number(),
    {
        lemma_day_number_orders_dates(self.ymd(), other.ymd());
    }

    /// The date of the given year, month and day, if there is such a day.
    pub fn from_ymd(year: i32, month: u32, day: u32) -> (date: Option<Date>)
        ensures
            date.is_some() == is_calendar_date(year as int, month as int, day as int),
            date matches Some(d) ==> d.is_valid() && d.ymd() == (
                year as int,
                month as int,
                day as int,
            ),
    {
        if exists_in_calendar(year, month, day) {
            Some(Date { year, month, day })
        } else {
            None
        }
    }

    /// The date that `text` names, written as year, month and day with
    /// hyphens between them; nothing where the text names no date.
    pub fn parse(text: &str) -> (date: Option<Date>)
        ensures
            date matches Some(found) ==> found.is_valid() && date_in_text(text@) == Some(
                found.ymd(),
            ),
            date is None <==> date_in_text(text@) is None,
    {
        match read_date(text) {
            Ok(found) => Some(found),
            Err(_) => None,
        }
    }

    /// The year of the date.
    pub fn year(&self) -> (year: i32)
        ensures
            year == self.ymd().0,
    {
        self.year
    }

    /// The month of the date, from 1 to 12.
    pub fn month(&self) -> (month: u32)
        ensures
            month == self.ymd().1,
    {
        self.month
    }

    /// The day of the month, from 1.
    pub fn day(&self) -> (day: u32)
        ensures
            day == self.ymd().2,
    {
        self.day
    }

    /// The number of days from `earlier` to `self`: negative when `self` is
    /// the earlier of the two.
    pub fn days_since(&self, earlier: &Date) -> (days: i64)
        ensures
            days == self.day_number() - earlier.day_number(),
    {
        proof {
            use_type_invariant(self);
            use_type_invariant(earlier);
        }
        days_between(earlier, self)
    }
}

/// `chrono::NaiveDate::from_ymd_opt`: it finds a date exactly for the days
/// that exist in the calendar, within the years that `chrono` supports.
#[verifier::external_body]
fn exists_in_calendar(year: i32, month: u32, day: u32) -> (found: bool)
    ensures
        found == is_calendar_date(year as int, month as int, day as int),
{
    chrono::NaiveDate::from_ymd_opt(year, month, day).is_some()
}

/// `chrono::NaiveDate::parse_from_str` with the format `%Y-%m-%d`: what it
/// reads is what `date_in_text` names, and a date that it hands out exists
/// in the calendar.
#[verifier::external_body]
fn read_date(text: &str) -> (parsed: Result<Date, chrono::ParseError>)
    ensures
        parsed matches Ok(date) ==> date.is_valid() && date_in_text(text@) == Some(date.ymd()),
        parsed is Err <==> date_in_text(text@) is None,
{
    let date = chrono::NaiveDate::parse_from_str(text, "%Y-%m-%d")?;
    Ok(Date { year: date.year(), month: date.month(), day: date.day() })
}

/// `chrono::NaiveDate::signed_duration_since`, read in whole days: the day
/// count of `to` less that of `from`.
#[verifier::external_body]
fn days_between(from: &Date, to: &Date) -> (days: i64)
    requires
        from.is_valid(),
        to.is_valid(),
    ensures
        days == to.day_number() - from.day_number(),
{
    let start = chrono::NaiveDate::from_ymd_opt(from.year, from.month, from.day).unwrap();
    let end = chrono::NaiveDate::from_ymd_opt(to.year, to.month, to.day).unwrap();
    end.signed_duration_since(start).num_days()
}

} // verus!
