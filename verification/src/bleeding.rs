//! Bleeding episodes: the bleeding logs of a user, put in order of date and
//! cut into runs of days that follow one another.

use crate::errors::{ApiError, StoreFailure};
use crate::grouping::{
    is_run_partition, lemma_runs_lie_apart, lemma_split_runs, lemma_split_runs_mapped,
    lemma_split_runs_sorted, lemma_split_runs_steps, map_each, run_views, split_by_gap,
    split_runs, step_at,
};
use crate::models::{
    BleedingCycle, BleedingCycleView, BleedingDay, BleedingDayView, BleedingLogEntry,
};
use crate::sorting::{
    date_key, has_distinct_keys, is_sorted, lemma_sort_idempotent, lemma_sort_is_sorted,
    lemma_sort_keeps_items, lemma_sort_mapped, lemma_sort_of_distinct, lemma_sort_of_sorted,
    sort_by_date, stable_sort,
};
use vstd::prelude::*;

verus! {

/// The day of bleeding that a log stands for: a missing intensity reads as
/// the empty string.
pub open spec fn logged_day(entry: BleedingLogEntry) -> BleedingDayView {
    BleedingDayView {
        date: entry.date,
        intensity: match entry.intensity {
            Some(text) => text@,
            None => Seq::empty(),
        },
    }
}

/// [`logged_day`] as a function value.
pub open spec fn to_logged_day() -> spec_fn(BleedingLogEntry) -> BleedingDayView {
    |entry: BleedingLogEntry| logged_day(entry)
}

/// The days of bleeding that the logs stand for, in the order of the logs.
pub open spec fn logged_days(entries: Seq<BleedingLogEntry>) -> Seq<BleedingDayView> {
    entries.map_values(to_logged_day())
}

/// The key by which days of bleeding are ordered: the day count of their date.
pub open spec fn day_key() -> spec_fn(BleedingDayView) -> int {
    |day: BleedingDayView| day.date.day_number()
}

/// The episode made of the given days.
pub open spec fn episode_of(days: Seq<BleedingDayView>) -> BleedingCycleView {
    BleedingCycleView { start_date: days.first().date, end_date: days.last().date, days }
}

/// [`episode_of`] as a function value.
pub open spec fn to_episode() -> spec_fn(Seq<BleedingDayView>) -> BleedingCycleView {
    |days: Seq<BleedingDayView>| episode_of(days)
}

/// The days in order of date: days of one date stay in the order given.
pub open spec fn days_in_order(days: Seq<BleedingDayView>) -> Seq<BleedingDayView> {
    stable_sort(days, day_key())
}

/// The bleeding episodes of the given days: the days in order of date, cut
/// wherever a day lies more than one day after the day before it.
pub open spec fn episodes_of(days: Seq<BleedingDayView>) -> Seq<BleedingCycleView> {
    split_runs(days_in_order(days), day_key(), 1).map_values(to_episode())
}

/// What each of the episodes holds.
pub open spec fn episode_views(episodes: Seq<BleedingCycle>) -> Seq<BleedingCycleView> {
    episodes.map_values(|episode: BleedingCycle| episode@)
}

/// What each of the days holds.
pub open spec fn day_views(days: Seq<BleedingDay>) -> Seq<BleedingDayView> {
    days.map_values(|day: BleedingDay| day@)
}

/// The days of each of the episodes.
pub open spec fn episode_days(episodes: Seq<BleedingCycleView>) -> Seq<Seq<BleedingDayView>> {
    episodes.map_values(|episode: BleedingCycleView| episode.days)
}

/// An episode has at least one day, starts on the date of its first day and
/// ends on the date of its last, and each of its days is the day after the
/// one before it, or the same day once more.
pub open spec fn is_episode(episode: BleedingCycleView) -> bool {
    &&& episode.days.len() > 0
    &&& episode.start_date == episode.days.first().date
    &&& episode.end_date == episode.days.last().date
    &&& forall|k: int|
        0 < k < episode.days.len() ==> 0 <= #[trigger] step_at(episode.days, day_key(), k) <= 1
}

/// The episodes hold every given day exactly once, in order of date; each is
/// an episode; and any later episode starts more than one day after any
/// earlier episode ends.
pub proof fn lemma_episodes_partition(days: Seq<BleedingDayView>)
    ensures
        episode_days(episodes_of(days)).flatten() == days_in_order(days),
        episode_days(episodes_of(days)).flatten().to_multiset() == days.to_multiset(),
        is_run_partition(episode_days(episodes_of(days)), days_in_order(days), day_key(), 1),
        forall|e: int|
            0 <= e < episodes_of(days).len() ==> is_episode(#[trigger] episodes_of(days)[e]),
        forall|a: int, b: int|
            0 <= a < b < episodes_of(days).len() ==> (#[trigger] episodes_of(
                days,
            )[b]).start_date.day_number() - (#[trigger] episodes_of(
                days,
            )[a]).end_date.day_number() > 1,
{
    let key = day_key();
    let sorted = days_in_order(days);
    let runs = split_runs(sorted, key, 1);
    let episodes = episodes_of(days);
    assert(episode_days(episodes) =~= runs);
    lemma_sort_is_sorted(days, key);
    lemma_sort_keeps_items(days, key);
    lemma_split_runs(sorted, key, 1);
    lemma_split_runs_sorted(sorted, key, 1);
    assert forall|e: int| 0 <= e < episodes.len() implies is_episode(#[trigger] episodes[e]) by {
        let run = runs[e];
        assert(episodes[e] == episode_of(run));
        assert(is_sorted(run, key));
        assert forall|k: int| 0 < k < run.len() implies 0 <= #[trigger] step_at(run, key, k)
            <= 1 by {
            assert(key(run[k - 1]) <= key(run[k]));
        }
    }
    assert forall|a: int, b: int| 0 <= a < b < episodes.len() implies (#[trigger] episodes[b])
        .start_date.day_number() - (#[trigger] episodes[a]).end_date.day_number() > 1 by {
        lemma_runs_lie_apart(runs, sorted, key, 1, a, b);
        assert(episodes[a] == episode_of(runs[a]));
        assert(episodes[b] == episode_of(runs[b]));
    }
}

/// Every day of the episode but the first is the day after the one before it.
pub open spec fn has_consecutive_days(episode: BleedingCycleView) -> bool {
    forall|k: int|
        0 < k < episode.days.len() ==> #[trigger] step_at(episode.days, day_key(), k) == 1
}

/// Where no day is given twice, every day of an episode is the day after the
/// one before it.
pub proof fn lemma_episodes_of_distinct_days(days: Seq<BleedingDayView>)
    requires
        has_distinct_keys(days, day_key()),
    ensures
        forall|e: int|
            0 <= e < episodes_of(days).len() ==> has_consecutive_days(
                #[trigger] episodes_of(days)[e],
            ),
{
    let key = day_key();
    let sorted = days_in_order(days);
    let runs = split_runs(sorted, key, 1);
    let episodes = episodes_of(days);
    lemma_sort_of_distinct(days, key);
    assert forall|i: int| 0 < i < sorted.len() implies #[trigger] step_at(sorted, key, i) >= 1 by {
        assert(key(sorted[i - 1]) < key(sorted[i]));
    }
    lemma_split_runs_steps(sorted, key, 1, 1);
    lemma_split_runs(sorted, key, 1);
    assert forall|e: int| 0 <= e < episodes.len() implies has_consecutive_days(
        #[trigger] episodes[e],
    ) by {
        let run = runs[e];
        assert(episodes[e] == episode_of(run));
        assert forall|k: int| 0 < k < run.len() implies #[trigger] step_at(run, key, k) == 1 by {
            assert(step_at(runs[e], key, k) >= 1);
            assert(step_at(run, key, k) <= 1);
        }
    }
}

/// Days that are in order of date already are cut as they stand, and putting
/// the days in order beforehand changes no episode.
pub proof fn lemma_episodes_of_ordered_days(days: Seq<BleedingDayView>)
    ensures
        episodes_of(days_in_order(days)) == episodes_of(days),
        is_sorted(days, day_key()) ==> days_in_order(days) == days,
{
    lemma_sort_idempotent(days, day_key());
    if is_sorted(days, day_key()) {
        lemma_sort_of_sorted(days, day_key());
    }
}

/// The episode that the logs make up, which follow one another.
fn episode_from(run: Vec<BleedingLogEntry>) -> (episode: BleedingCycle)
    requires
        run@.len() > 0,
    ensures
        episode@ == episode_of(logged_days(run@)),
{
    let ghost logs = run@;
    let start_date = run[0].date;
    let end_date = run[run.len() - 1].date;
    let mut days: Vec<BleedingDay> = Vec::new();
    for entry in it: run
        invariant
            it.seq() == logs,
            day_views(days@) == logged_days(logs.take(it.index())),
    {
        let ghost n = it.index();
        let ghost filled = day_views(days@);
        let intensity = match entry.intensity {
            Some(text) => text,
            None => String::new(),
        };
        days.push(BleedingDay { date: entry.date, intensity });
        proof {
            assert(logs.take(n + 1) =~= logs.take(n).push(entry));
            assert(day_views(days@) =~= filled.push(logged_day(entry)));
            assert(logged_days(logs.take(n + 1)) =~= filled.push(logged_day(entry)));
        }
    }
    proof {
        assert(logs.take(logs.len() as int) =~= logs);
    }
    BleedingCycle { start_date, end_date, days }
}

/// The bleeding episodes of a user, from the user's bleeding logs in any
/// order: the logs are put in order of date, and an episode ends wherever the
/// next log lies more than one day later. A day that was logged twice
/// stays in its episode twice.
pub fn group_bleeding_episodes(rows: Vec<BleedingLogEntry>) -> (episodes: Vec<BleedingCycle>)
    ensures
        episode_views(episodes@) == episodes_of(logged_days(rows@)),
        episode_days(episode_views(episodes@)).flatten().to_multiset() == logged_days(
            rows@,
        ).to_multiset(),
        episode_days(episode_views(episodes@)).flatten() == days_in_order(logged_days(rows@)),
        forall|e: int| 0 <= e < episodes.len() ==> is_episode(#[trigger] episodes[e]@),
        has_distinct_keys(logged_days(rows@), day_key()) ==> forall|e: int|
            0 <= e < episodes.len() ==> has_consecutive_days(#[trigger] episodes[e]@),
        forall|a: int, b: int|
            0 <= a < b < episodes.len() ==> (#[trigger] episodes[b]).start_date.day_number() - (
            #[trigger] episodes[a]).end_date.day_number() > 1,
{
    let ghost days = days_in_order(logged_days(rows@));
    let ghost found = episodes_of(logged_days(rows@));
    let sorted = sort_by_date(rows);
    let runs = split_by_gap(sorted, 1);
    let ghost cut = run_views(runs@);
    proof {
        lemma_episodes_partition(logged_days(rows@));
        lemma_sort_mapped(rows@, date_key::<BleedingLogEntry>(), to_logged_day(), day_key());
        lemma_split_runs_mapped(
            sorted@,
            date_key::<BleedingLogEntry>(),
            to_logged_day(),
            day_key(),
            1,
        );
        lemma_split_runs(sorted@, date_key::<BleedingLogEntry>(), 1);
        assert(cut.map_values(map_each(to_logged_day())).map_values(to_episode()) == found);
        assert forall|r: int| 0 <= r < runs@.len() implies (#[trigger] runs@[r])@.len() > 0 by {
            assert(cut[r] == runs@[r]@);
        }
    }
    let ghost all = runs@;
    let mut episodes: Vec<BleedingCycle> = Vec::new();
    for run in it: runs
        invariant
            it.seq() == all,
            cut == run_views(all),
            found == cut.map_values(map_each(to_logged_day())).map_values(to_episode()),
            forall|r: int| 0 <= r < all.len() ==> (#[trigger] all[r])@.len() > 0,
            episode_views(episodes@) == found.take(it.index()),
    {
        let ghost n = it.index();
        let ghost closed = episode_views(episodes@);
        assert(all[n] == run);
        assert(cut[n] == run@);
        let episode = episode_from(run);
        episodes.push(episode);
        proof {
            assert(found[n] == episode_of(logged_days(run@)));
            assert(episode_views(episodes@) =~= closed.push(found[n]));
            assert(found.take(n + 1) =~= found.take(n).push(found[n]));
        }
    }
    proof {
        assert(found.take(found.len() as int) =~= found);
        assert forall|e: int| 0 <= e < episodes.len() implies is_episode(
            #[trigger] episodes[e]@,
        ) by {
            assert(episodes[e]@ == found[e]);
        }
        assert forall|a: int, b: int| 0 <= a < b < episodes.len() implies (#[trigger] episodes[b])
            .start_date.day_number() - (#[trigger] episodes[a]).end_date.day_number() > 1 by {
            assert(episodes[a]@ == found[a]);
            assert(episodes[b]@ == found[b]);
        }
        if has_distinct_keys(logged_days(rows@), day_key()) {
            lemma_episodes_of_distinct_days(logged_days(rows@));
            assert forall|e: int| 0 <= e < episodes.len() implies has_consecutive_days(
                #[trigger] episodes[e]@,
            ) by {
                assert(episodes[e]@ == found[e]);
            }
        }
    }
    episodes
}

/// The answer to a request for the bleeding history of a user, from what the
/// record store handed out: the episodes of the logs, or `StoreUnavailable`
/// where the store failed.
pub fn get_bleeding_history(fetched: Result<Vec<BleedingLogEntry>, StoreFailure>) -> (answer:
    Result<Vec<BleedingCycle>, ApiError>)
    ensures
        fetched is Err ==> answer == Err::<Vec<BleedingCycle>, ApiError>(
            ApiError::StoreUnavailable,
        ),
        fetched matches Ok(rows) ==> answer matches Ok(episodes) && episode_views(episodes@)
            == episodes_of(logged_days(rows@)),
{
    match fetched {
        Ok(rows) => Ok(group_bleeding_episodes(rows)),
        Err(_) => Err(ApiError::StoreUnavailable),
    }
}

} // verus!
