//! The summary of the current cycle: how far the user is into it, whether
//! today lies in the fertile window, and when the next period is expected.

use crate::calendar::Date;
use crate::errors::{ApiError, StoreFailure};
use crate::models::{Cycle, CycleSummary};
use vstd::prelude::*;

verus! {

/// A request that names the user it is about.
#[derive(Clone, Copy, Debug, PartialEq, Eq, Structural)]
pub struct UserQuery {
    pub user_id: u128,
}

/// A cycle to record.
#[derive(Clone, Copy, Debug, PartialEq, Eq, Structural)]
pub struct NewCycle {
    pub user_id: u128,
    pub start_date: Date,
}

/// The length that every cycle is taken to have when the next period is predicted.
pub const ASSUMED_CYCLE_LENGTH: i64 = 26;

/// The first day of a cycle, counted from its start as day 0, that lies in the fertile window.
pub const FERTILE_WINDOW_FIRST_DAY: i64 = 12;

/// The last day of a cycle that lies in the fertile window.
pub const FERTILE_WINDOW_LAST_DAY: i64 = 16;

/// The number of days from the start of the cycle to `today`: negative when
/// the cycle starts after `today`.
pub open spec fn cycle_day_on(start: Date, today: Date) -> int {
    today.day_number() - start.day_number()
}

/// Whether `today` is one of the days from 12 days after `start` to 16 days
/// after `start`, both included.
pub open spec fn is_in_fertile_window(start: Date, today: Date) -> bool {
    start.day_number() + FERTILE_WINDOW_FIRST_DAY <= today.day_number() <= start.day_number()
        + FERTILE_WINDOW_LAST_DAY
}

/// Whether `summary` is the summary on `today` of the cycle that started on `start`.
pub open spec fn is_summary_of(summary: CycleSummary, start: Date, today: Date) -> bool {
    &&& summary.start_date == start
    &&& summary.cycle_day == cycle_day_on(start, today)
    &&& summary.in_fertile_window == is_in_fertile_window(start, today)
    &&& summary.period_expected_in_days == ASSUMED_CYCLE_LENGTH - cycle_day_on(start, today)
}

/// The summary on `today` of the cycle that started on `start`.
pub fn summarize_current_cycle(start: Date, today: Date) -> (summary: CycleSummary)
    ensures
        is_summary_of(summary, start, today),
{
    proof {
        use_type_invariant(&start);
        use_type_invariant(&today);
        start.lemma_day_number_range();
        today.lemma_day_number_range();
    }
    let cycle_day: i64 = today.days_since(&start);
    CycleSummary {
        cycle_day,
        in_fertile_window: FERTILE_WINDOW_FIRST_DAY <= cycle_day && cycle_day
            <= FERTILE_WINDOW_LAST_DAY,
        period_expected_in_days: ASSUMED_CYCLE_LENGTH - cycle_day,
        start_date: start,
    }
}

/// The answer to a request for the summary of the current cycle, from what
/// the record store handed out as the user's most recent cycle: its summary
/// on `today`, `NotFound` where the user has recorded no cycle, or
/// `StoreUnavailable` where the store failed.
pub fn get_cycle_summary(fetched: Result<Option<Cycle>, StoreFailure>, today: Date) -> (answer:
    Result<CycleSummary, ApiError>)
    ensures
        fetched is Err ==> answer == Err::<CycleSummary, ApiError>(ApiError::StoreUnavailable),
        fetched == Ok::<Option<Cycle>, StoreFailure>(None) ==> answer == Err::<
            CycleSummary,
            ApiError,
        >(ApiError::NotFound),
        fetched matches Ok(Some(cycle)) ==> answer matches Ok(found) && is_summary_of(
            found,
            cycle.start_date,
            today,
        ),
{
    match fetched {
        Ok(Some(cycle)) => Ok(summarize_current_cycle(cycle.start_date, today)),
        Ok(None) => Err(ApiError::NotFound),
        Err(_) => Err(ApiError::StoreUnavailable),
    }
}

} // verus!
