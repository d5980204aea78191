//! Statistics over the cycles a user has recorded: for each cycle the days of
//! bleeding that fall into it and the days until the next cycle starts, and
//! the averages of both.

use crate::calendar::Date;
use crate::errors::{ApiError, StoreFailure};
use crate::models::{BleedingLogEntry, Cycle};
use crate::sorting::{
    date_key, is_sorted, lemma_sort_is_sorted, lemma_sort_keeps_items, lemma_sort_mapped,
    sort_by_date, stable_sort,
};
use vstd::prelude::*;

verus! {

/// A request for the statistics of one user.
#[derive(Clone, Copy, Debug, PartialEq, Eq, Structural)]
pub struct CycleStatsQuery {
    pub user_id: u128,
}

/// The figures of one cycle. Cycles are numbered from 1 in order of their
/// start; the cycle length of the latest cycle, which is still open, is 0.
#[derive(Clone, Copy, Debug, PartialEq, Eq, Structural)]
pub struct CycleStat {
    pub cycle_number: i32,
    pub period_length: i32,
    pub cycle_length: i32,
}

/// An average, kept exact as a total and the number of values that it is
/// the total of. The count is never 0: the average of no values is 0 of 1.
#[derive(Clone, Copy, Debug, PartialEq, Eq, Structural)]
pub struct Average {
    pub total: u64,
    pub count: u64,
}

impl Average {
    /// Whether this is the average of `count` values that add up to `total`.
    pub open spec fn is_mean_of(self, total: int, count: int) -> bool {
        if count == 0 {
            self.total == 0 && self.count == 1
        } else {
            self.total == total && self.count == count
        }
    }

    /// The average of `count` values that add up to `total`; 0 when there is no value.
    pub fn of(total: u64, count: u64) -> (mean: Average)
        ensures
            mean.is_mean_of(total as int, count as int),
            mean.count > 0,
    {
        if count == 0 {
            Average { total: 0, count: 1 }
        } else {
            Average { total, count }
        }
    }
}

/// The statistics of a user's cycles.
#[derive(Clone, Debug, PartialEq, Eq)]
pub struct CycleStatsResponse {
    pub average_period_length: Average,
    pub average_cycle_length: Average,
    pub cycle_stats: Vec<CycleStat>,
}

/// Whether `day` lies in the span that begins with `from` and ends before
/// `until`, or never ends where there is no `until`.
pub open spec fn is_within(day: int, from: int, until: Option<int>) -> bool {
    from <= day && (until matches Some(end) ==> day < end)
}

/// The number of `days` that lie within the span from `from` to `until`.
pub open spec fn count_within(days: Seq<int>, from: int, until: Option<int>) -> nat
    decreases days.len(),
{
    if days.len() == 0 {
        0
    } else {
        count_within(days.drop_last(), from, until) + if is_within(days.last(), from, until) {
            1nat
        } else {
            0nat
        }
    }
}

/// The day count of the day on which a cycle starts, as a function value.
pub open spec fn to_start_day() -> spec_fn(Cycle) -> int {
    |cycle: Cycle| cycle.start_date.day_number()
}

/// The day count of the day of a log, as a function value.
pub open spec fn to_logged_on() -> spec_fn(BleedingLogEntry) -> int {
    |entry: BleedingLogEntry| entry.date.day_number()
}

/// A day count as its own key.
pub open spec fn day_count_key() -> spec_fn(int) -> int {
    |day: int| day
}

/// The day counts of the starts of the cycles, in ascending order.
pub open spec fn ordered_starts(cycles: Seq<Cycle>) -> Seq<int> {
    stable_sort(cycles.map_values(to_start_day()), day_count_key())
}

/// The day counts of the days of the logs.
pub open spec fn logged_on(logs: Seq<BleedingLogEntry>) -> Seq<int> {
    logs.map_values(to_logged_on())
}

/// The start of the cycle after the cycle at `i`, if that is not the last.
pub open spec fn next_start(starts: Seq<int>, i: int) -> Option<int> {
    if i + 1 < starts.len() {
        Some(starts[i + 1])
    } else {
        None
    }
}

/// The days of bleeding from the start of the cycle at `i` up to the start of
/// the next cycle, or without end for the last cycle.
pub open spec fn period_length_at(starts: Seq<int>, logged: Seq<int>, i: int) -> nat {
    count_within(logged, starts[i], next_start(starts, i))
}

/// The days from the start of the cycle at `i` to the start of the next
/// cycle; 0 for the last cycle, which is still open.
pub open spec fn cycle_length_at(starts: Seq<int>, i: int) -> int {
    match next_start(starts, i) {
        Some(next) => next - starts[i],
        None => 0,
    }
}

/// The period lengths of the first `n` cycles, added up.
pub open spec fn total_period_length(starts: Seq<int>, logged: Seq<int>, n: int) -> int
    decreases n,
{
    if n <= 0 {
        0
    } else {
        total_period_length(starts, logged, n - 1) + period_length_at(starts, logged, n - 1)
    }
}

/// The cycle lengths of the first `n` cycles, added up.
pub open spec fn total_cycle_length(starts: Seq<int>, n: int) -> int
    decreases n,
{
    if n <= 0 {
        0
    } else {
        total_cycle_length(starts, n - 1) + cycle_length_at(starts, n - 1)
    }
}

/// The figures of the cycle at `i`. A cycle number or a period length that
/// does not fit in 32 bits is cut down to its low 32 bits.
pub open spec fn stat_at(starts: Seq<int>, logged: Seq<int>, i: int) -> CycleStat {
    CycleStat {
        cycle_number: (i + 1) as i32,
        period_length: period_length_at(starts, logged, i) as i32,
        cycle_length: cycle_length_at(starts, i) as i32,
    }
}

/// No more days lie within a span than there are days.
pub proof fn lemma_count_within_bound(days: Seq<int>, from: int, until: Option<int>)
    ensures
        count_within(days, from, until) <= days.len(),
    decreases days.len(),
{
    if days.len() > 0 {
        lemma_count_within_bound(days.drop_last(), from, until);
    }
}

/// A span cut in two at `mid` holds the days of both parts.
pub proof fn lemma_count_within_split(days: Seq<int>, from: int, mid: int, until: Option<int>)
    requires
        from <= mid,
        until matches Some(end) ==> mid <= end,
    ensures
        count_within(days, from, until) == count_within(days, from, Some(mid)) + count_within(
            days,
            mid,
            until,
        ),
    decreases days.len(),
{
    if days.len() > 0 {
        lemma_count_within_split(days.drop_last(), from, mid, until);
    }
}

/// The end of the span that the first `n` cycles cover: the start of the
/// cycle at `n`, or none when those are all the cycles.
pub open spec fn covered_until(starts: Seq<int>, n: int) -> Option<int> {
    if n < starts.len() {
        Some(starts[n])
    } else {
        None
    }
}

/// The period lengths of the first `n` cycles add up to the days of bleeding
/// from the first start to the end of the span that those cycles cover.
pub proof fn lemma_total_period_length(starts: Seq<int>, logged: Seq<int>, n: int)
    requires
        is_sorted(starts, day_count_key()),
        0 < n <= starts.len(),
    ensures
        total_period_length(starts, logged, n) == count_within(
            logged,
            starts[0],
            covered_until(starts, n),
        ),
        total_period_length(starts, logged, n) <= logged.len(),
    decreases n,
{
    let key = day_count_key();
    if n > 1 {
        lemma_total_period_length(starts, logged, n - 1);
        assert(key(starts[0]) <= key(starts[n - 1]));
        if n < starts.len() {
            assert(key(starts[n - 1]) <= key(starts[n]));
        }
        lemma_count_within_split(logged, starts[0], starts[n - 1], covered_until(starts, n));
    } else {
        assert(total_period_length(starts, logged, 0) == 0);
    }
    lemma_count_within_bound(logged, starts[0], covered_until(starts, n));
}

/// The cycle lengths of the first `n` cycles add up to the days from the
/// first start to the start of the cycle at `n`, or to the last start when
/// those are all the cycles.
pub proof fn lemma_total_cycle_length(starts: Seq<int>, n: int)
    requires
        0 < n <= starts.len(),
    ensures
        total_cycle_length(starts, n) == (if n < starts.len() {
            starts[n]
        } else {
            starts[n - 1]
        }) - starts[0],
    decreases n,
{
    if n > 1 {
        lemma_total_cycle_length(starts, n - 1);
    } else {
        assert(total_cycle_length(starts, 0) == 0);
    }
}

/// The day count of the date, if there is one.
pub open spec fn day_count_of(date: Option<Date>) -> Option<int> {
    match date {
        Some(day) => Some(day.day_number()),
        None => None,
    }
}

/// The number of logs whose day is `from` or later and, where there is an
/// `until`, earlier than `until`.
pub fn count_logged(logs: &Vec<BleedingLogEntry>, from: Date, until: Option<Date>) -> (count: usize)
    ensures
        count == count_within(logged_on(logs@), from.day_number(), day_count_of(until)),
{
    let ghost logged = logged_on(logs@);
    let ghost first = from.day_number();
    let ghost end = day_count_of(until);
    let mut count: usize = 0;
    let mut at: usize = 0;
    while at < logs.len()
        invariant
            at <= logs.len(),
            logged == logged_on(logs@),
            first == from.day_number(),
            end == day_count_of(until),
            count == count_within(logged.take(at as int), first, end),
            count <= at,
        decreases logs.len() - at,
    {
        let day = logs[at].date;
        assert(logged.take(at + 1).drop_last() =~= logged.take(at as int));
        assert(logged.take(at + 1).last() == day.day_number());
        let before_end = match until {
            Some(stop) => day.days_since(&stop) < 0,
            None => true,
        };
        if day.days_since(&from) >= 0 && before_end {
            count = count + 1;
        }
        at = at + 1;
    }
    assert(logged.take(logs.len() as int) =~= logged);
    count
}

/// The statistics of the cycles, ordered by the day on which they start;
/// cycles that start on one day keep the order in which they were given.
/// Each cycle runs from its start to the start of the next one, the latest
/// without end. A log on the day a cycle starts belongs to that cycle.
/// The latest cycle counts with a cycle length of 0 in the average, so the
/// cycle lengths add up to the days from the first start to the last, and
/// the period lengths to the logs on or after the first start.
pub fn compute_cycle_stats(cycles: Vec<Cycle>, logs: &Vec<BleedingLogEntry>) -> (response:
    CycleStatsResponse)
    ensures
        response.cycle_stats@.len() == cycles@.len(),
        forall|i: int|
            0 <= i < cycles@.len() ==> #[trigger] response.cycle_stats@[i] == stat_at(
                ordered_starts(cycles@),
                logged_on(logs@),
                i,
            ),
        forall|i: int|
            0 <= i < cycles@.len() ==> (#[trigger] response.cycle_stats@[i]).cycle_length
                == cycle_length_at(ordered_starts(cycles@), i),
        forall|i: int|
            0 <= i < cycles@.len() && i < i32::MAX ==> (#[trigger] response.cycle_stats@[i])
                .cycle_number == i + 1,
        forall|i: int|
            0 <= i < cycles@.len() && logs@.len() <= i32::MAX ==> (
            #[trigger] response.cycle_stats@[i]).period_length == period_length_at(
                ordered_starts(cycles@),
                logged_on(logs@),
                i,
            ),
        response.average_period_length.is_mean_of(
            total_period_length(ordered_starts(cycles@), logged_on(logs@), cycles@.len() as int),
            cycles@.len() as int,
        ),
        response.average_cycle_length.is_mean_of(
            total_cycle_length(ordered_starts(cycles@), cycles@.len() as int),
            cycles@.len() as int,
        ),
        response.average_period_length.count > 0,
        response.average_cycle_length.count > 0,
        cycles@.len() > 0 ==> response.average_period_length.total == count_within(
            logged_on(logs@),
            ordered_starts(cycles@).first(),
            None,
        ),
        cycles@.len() > 0 ==> response.average_cycle_length.total == ordered_starts(
            cycles@,
        ).last() - ordered_starts(cycles@).first(),
{
    let ghost starts = ordered_starts(cycles@);
    let ghost logged = logged_on(logs@);
    let sorted = sort_by_date(cycles);
    proof {
        lemma_sort_mapped(cycles@, date_key::<Cycle>(), to_start_day(), day_count_key());
        lemma_sort_is_sorted(cycles@.map_values(to_start_day()), day_count_key());
        lemma_sort_keeps_items(cycles@, date_key::<Cycle>());
        assert(sorted@.map_values(to_start_day()) == starts);
    }
    let n = sorted.len();
    let mut stats: Vec<CycleStat> = Vec::new();
    let mut total_period: u64 = 0;
    let mut total_cycle: u64 = 0;
    let mut i: usize = 0;
    while i < n
        invariant
            i <= n,
            n == sorted@.len(),
            n == starts.len(),
            starts == sorted@.map_values(to_start_day()),
            logged == logged_on(logs@),
            is_sorted(starts, day_count_key()),
            stats@.len() == i,
            forall|k: int| 0 <= k < i ==> #[trigger] stats@[k] == stat_at(starts, logged, k),
            forall|k: int|
                0 <= k < i ==> (#[trigger] stats@[k]).cycle_length == cycle_length_at(starts, k),
            forall|k: int|
                0 <= k < i && logs@.len() <= i32::MAX ==> (#[trigger] stats@[k]).period_length
                    == period_length_at(starts, logged, k),
            total_period == total_period_length(starts, logged, i as int),
            total_cycle == total_cycle_length(starts, i as int),
            i > 0 ==> -96_000_000 < starts[0] < 96_000_000,
        decreases n - i,
    {
        let start = sorted[i].start_date;
        let next = if i + 1 < n {
            let after = sorted[i + 1].start_date;
            proof {
                use_type_invariant(&after);
                after.lemma_day_number_range();
                assert(starts[i + 1] == after.day_number());
                assert(day_count_key()(starts[i as int]) <= day_count_key()(starts[i + 1]));
            }
            Some(after)
        } else {
            None
        };
        proof {
            use_type_invariant(&start);
            start.lemma_day_number_range();
            assert(starts[i as int] == start.day_number());
            assert(day_count_of(next) == next_start(starts, i as int));
            lemma_total_period_length(starts, logged, i + 1);
            lemma_total_cycle_length(starts, i + 1);
            assert(day_count_key()(starts[0]) <= day_count_key()(starts[i as int]));
        }
        let period: usize = count_logged(logs, start, next);
        let cycle_length: i64 = match next {
            Some(after) => after.days_since(&start),
            None => 0,
        };
        proof {
            lemma_count_within_bound(logged, starts[i as int], next_start(starts, i as int));
            assert(logged.len() == logs.len());
        }
        total_period = total_period + period as u64;
        total_cycle = total_cycle + cycle_length as u64;
        stats.push(
            CycleStat {
                cycle_number: #[verifier::truncate] ((i + 1) as i32),
                period_length: #[verifier::truncate] (period as i32),
                cycle_length: cycle_length as i32,
            },
        );
        i = i + 1;
    }
    proof {
        if n > 0 {
            lemma_total_period_length(starts, logged, n as int);
            lemma_total_cycle_length(starts, n as int);
        }
    }
    CycleStatsResponse {
        average_period_length: Average::of(total_period, n as u64),
        average_cycle_length: Average::of(total_cycle, n as u64),
        cycle_stats: stats,
    }
}

/// What each of the figures is.
pub open spec fn is_stats_of(
    response: CycleStatsResponse,
    cycles: Seq<Cycle>,
    logs: Seq<BleedingLogEntry>,
) -> bool {
    &&& response.cycle_stats@.len() == cycles.len()
    &&& forall|i: int|
        0 <= i < cycles.len() ==> #[trigger] response.cycle_stats@[i] == stat_at(
            ordered_starts(cycles),
            logged_on(logs),
            i,
        )
    &&& response.average_period_length.is_mean_of(
        total_period_length(ordered_starts(cycles), logged_on(logs), cycles.len() as int),
        cycles.len() as int,
    )
    &&& response.average_cycle_length.is_mean_of(
        total_cycle_length(ordered_starts(cycles), cycles.len() as int),
        cycles.len() as int,
    )
}

/// The answer to a request for the statistics of a user, from what the
/// record store handed out as the user's cycles and bleeding logs: the
/// statistics, or `StoreUnavailable` where the store failed on either.
pub fn get_cycle_stats(
    cycles: Result<Vec<Cycle>, StoreFailure>,
    logs: Result<Vec<BleedingLogEntry>, StoreFailure>,
) -> (answer: Result<CycleStatsResponse, ApiError>)
    ensures
        match (cycles, logs) {
            (Ok(recorded), Ok(logged)) => answer matches Ok(response) && is_stats_of(
                response,
                recorded@,
                logged@,
            ),
            _ => answer == Err::<CycleStatsResponse, ApiError>(ApiError::StoreUnavailable),
        },
{
    match cycles {
        Ok(recorded) => match logs {
            Ok(logged) => Ok(compute_cycle_stats(recorded, &logged)),
            Err(_) => Err(ApiError::StoreUnavailable),
        },
        Err(_) => Err(ApiError::StoreUnavailable),
    }
}

} // verus!
