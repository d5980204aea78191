//! Symptom logs: the symptoms of a user grouped by day, and the requests
//! that log or remove a symptom, with what they must hold before the record
//! store is asked and what its answer means.

use crate::calendar::{date_in_text, Date};
use crate::errors::{ApiError, StoreFailure};
use crate::grouping::{
    is_run_partition, lemma_runs_lie_apart, lemma_split_runs, lemma_split_runs_sorted, run_views,
    split_by_gap, split_runs, step_at,
};
use crate::identifiers::{parse_uuid, uuid_in_text};
use crate::models::{
    text_views, DeleteSymptomRequest, SymptomLog, SymptomsByDate, SymptomsByDateView,
};
use crate::sorting::{
    date_key, is_sorted, lemma_sort_is_sorted, lemma_sort_keeps_items, sort_by_date, stable_sort,
};
use vstd::prelude::*;

verus! {

/// A symptom to log.
#[derive(Clone, Debug, PartialEq, Eq)]
pub struct NewSymptom {
    pub user_id: u128,
    pub logged_at: Date,
    pub symptom_type: String,
    pub intensity: Option<String>,
}

/// The log that a request to remove a symptom points at.
#[derive(Clone, Debug, PartialEq, Eq)]
pub struct SymptomKey {
    pub user_id: u128,
    pub logged_at: Date,
    pub symptom_type: String,
}

/// Whether `outcome` is what a request to remove a symptom comes to, given
/// what was read from its user id and from its date: the user id is looked at
/// first, then the date.
pub open spec fn is_checked_request(
    outcome: Result<SymptomKey, ApiError>,
    user_id: Option<u128>,
    logged_at: Option<Date>,
    symptom_type: Seq<char>,
) -> bool {
    match (user_id, logged_at) {
        (None, _) => outcome == Err::<SymptomKey, ApiError>(ApiError::InvalidUserId),
        (Some(_), None) => outcome == Err::<SymptomKey, ApiError>(ApiError::InvalidDate),
        (Some(id), Some(date)) => outcome matches Ok(key) && key.user_id == id && key.logged_at
            == date && key.symptom_type@ == symptom_type,
    }
}

/// The log to remove, from what was read from the request's user id and
/// date; the failure to report where one of them could not be read.
pub fn check_delete_request(
    user_id: Option<u128>,
    logged_at: Option<Date>,
    symptom_type: String,
) -> (outcome: Result<SymptomKey, ApiError>)
    ensures
        is_checked_request(outcome, user_id, logged_at, symptom_type@),
{
    match user_id {
        None => Err(ApiError::InvalidUserId),
        Some(id) => match logged_at {
            None => Err(ApiError::InvalidDate),
            Some(date) => Ok(SymptomKey { user_id: id, logged_at: date, symptom_type }),
        },
    }
}

impl DeleteSymptomRequest {
    /// The log that the request points at. The request fails with
    /// `InvalidUserId` where its user id is no UUID, else with `InvalidDate`
    /// where its date cannot be read.
    pub fn parse(self) -> (outcome: Result<SymptomKey, ApiError>)
        ensures
            uuid_in_text(self.user_id@) is None ==> outcome == Err::<SymptomKey, ApiError>(
                ApiError::InvalidUserId,
            ),
            uuid_in_text(self.user_id@) is Some && date_in_text(self.logged_at@) is None
                ==> outcome == Err::<SymptomKey, ApiError>(ApiError::InvalidDate),
            uuid_in_text(self.user_id@) is Some && date_in_text(self.logged_at@) is Some ==> (
            outcome matches Ok(key) && Some(key.user_id) == uuid_in_text(self.user_id@) && Some(
                key.logged_at.ymd(),
            ) == date_in_text(self.logged_at@) && key.symptom_type@ == self.symptom_type@),
    {
        let user_id = parse_uuid(self.user_id.as_str());
        let logged_at = Date::parse(self.logged_at.as_str());
        check_delete_request(user_id, logged_at, self.symptom_type)
    }
}

/// What the answer of the record store to a removal means: `removed` is the
/// number of logs it removed. Removing no log reports that there was none.
pub fn delete_outcome(removed: Result<u64, StoreFailure>) -> (outcome: Result<(), ApiError>)
    ensures
        outcome == (match removed {
            Err(_) => Err::<(), ApiError>(ApiError::StoreUnavailable),
            Ok(count) => if count > 0 {
                Ok::<(), ApiError>(())
            } else {
                Err::<(), ApiError>(ApiError::NotFound)
            },
        }),
{
    match removed {
        Err(_) => Err(ApiError::StoreUnavailable),
        Ok(count) => if count > 0 {
            Ok(())
        } else {
            Err(ApiError::NotFound)
        },
    }
}

/// The name of a logged symptom, as a function value.
pub open spec fn to_symptom_name() -> spec_fn(SymptomLog) -> Seq<char> {
    |log: SymptomLog| log.symptom_type@
}

/// The symptoms of one day, from the logs of that day: the day is that of
/// the first log, the names are those of all the logs in their order.
pub open spec fn symptoms_of_day(logs: Seq<SymptomLog>) -> SymptomsByDateView {
    SymptomsByDateView {
        logged_at: logs.first().logged_at,
        symptoms: logs.map_values(to_symptom_name()),
    }
}

/// [`symptoms_of_day`] as a function value.
pub open spec fn to_symptoms_of_day() -> spec_fn(Seq<SymptomLog>) -> SymptomsByDateView {
    |logs: Seq<SymptomLog>| symptoms_of_day(logs)
}

/// The logs in order of date, logs of one day in the order given, cut
/// wherever the day changes.
pub open spec fn logs_by_date(rows: Seq<SymptomLog>) -> Seq<Seq<SymptomLog>> {
    split_runs(stable_sort(rows, date_key::<SymptomLog>()), date_key::<SymptomLog>(), 0)
}

/// The symptoms grouped by day, the days in ascending order; the symptoms of
/// a day stand in the order in which they were given.
pub open spec fn symptoms_by_date(rows: Seq<SymptomLog>) -> Seq<SymptomsByDateView> {
    logs_by_date(rows).map_values(to_symptoms_of_day())
}

/// What each of the groups holds.
pub open spec fn group_views(groups: Seq<SymptomsByDate>) -> Seq<SymptomsByDateView> {
    groups.map_values(|group: SymptomsByDate| group@)
}

/// The groups hold every log exactly once; the logs of a group are all of one
/// day; and a later group is of a later day than an earlier one.
pub proof fn lemma_logs_by_date(rows: Seq<SymptomLog>)
    ensures
        logs_by_date(rows).flatten().to_multiset() == rows.to_multiset(),
        is_run_partition(
            logs_by_date(rows),
            stable_sort(rows, date_key::<SymptomLog>()),
            date_key::<SymptomLog>(),
            0,
        ),
        forall|g: int, k: int|
            0 <= g < logs_by_date(rows).len() && 0 <= k < logs_by_date(rows)[g].len() ==> (
            #[trigger] logs_by_date(rows)[g][k]).logged_at.day_number() == logs_by_date(
                rows,
            )[g].first().logged_at.day_number(),
        forall|a: int, b: int|
            0 <= a < b < logs_by_date(rows).len() ==> (#[trigger] logs_by_date(
                rows,
            )[a]).first().logged_at.day_number() < (#[trigger] logs_by_date(
                rows,
            )[b]).first().logged_at.day_number(),
{
    let key = date_key::<SymptomLog>();
    let sorted = stable_sort(rows, key);
    let runs = logs_by_date(rows);
    lemma_sort_is_sorted(rows, key);
    lemma_sort_keeps_items(rows, key);
    lemma_split_runs(sorted, key, 0);
    lemma_split_runs_sorted(sorted, key, 0);
    assert forall|g: int, k: int| 0 <= g < runs.len() && 0 <= k < runs[g].len() implies (
    #[trigger] runs[g][k]).logged_at.day_number() == runs[g].first().logged_at.day_number() by {
        lemma_run_of_one_day(runs[g], k);
    }
    assert forall|a: int, b: int| 0 <= a < b < runs.len() implies (#[trigger] runs[a])
        .first().logged_at.day_number() < (#[trigger] runs[b]).first().logged_at.day_number() by {
        lemma_runs_lie_apart(runs, sorted, key, 0, a, b);
        assert(is_sorted(runs[a], key));
        assert(key(runs[a][0]) <= key(runs[a][runs[a].len() - 1]));
    }
}

/// In a sorted run whose neighbours lie no day apart, every log is of the
/// day of the first.
proof fn lemma_run_of_one_day(run: Seq<SymptomLog>, k: int)
    requires
        is_sorted(run, date_key::<SymptomLog>()),
        forall|j: int| 0 < j < run.len() ==> #[trigger] step_at(run, date_key::<SymptomLog>(), j)
            <= 0,
        0 <= k < run.len(),
    ensures
        run[k].logged_at.day_number() == run[0].logged_at.day_number(),
    decreases k,
{
    let key = date_key::<SymptomLog>();
    if k > 0 {
        lemma_run_of_one_day(run, k - 1);
        assert(step_at(run, key, k) <= 0);
        assert(key(run[k - 1]) <= key(run[k]));
    }
}

/// The symptoms of the day of the logs, which are all of one day.
fn symptoms_from(logs: Vec<SymptomLog>) -> (group: SymptomsByDate)
    requires
        logs@.len() > 0,
    ensures
        group@ == symptoms_of_day(logs@),
{
    let ghost all = logs@;
    let logged_at = logs[0].logged_at;
    let mut symptoms: Vec<String> = Vec::new();
    for log in it: logs
        invariant
            it.seq() == all,
            text_views(symptoms@) == all.take(it.index()).map_values(to_symptom_name()),
    {
        let ghost n = it.index();
        let ghost named = text_views(symptoms@);
        symptoms.push(log.symptom_type);
        proof {
            assert(all.take(n + 1) =~= all.take(n).push(log));
            assert(text_views(symptoms@) =~= named.push(log.symptom_type@));
            assert(all.take(n + 1).map_values(to_symptom_name()) =~= named.push(
                log.symptom_type@,
            ));
        }
    }
    proof {
        assert(all.take(all.len() as int) =~= all);
    }
    SymptomsByDate { logged_at, symptoms }
}

/// The symptoms of a user grouped by day, from the user's logs in any order.
/// The days come in ascending order, each once; the symptoms of a day stand
/// in the order in which their logs were given.
pub fn get_symptoms_grouped(rows: Vec<SymptomLog>) -> (groups: Vec<SymptomsByDate>)
    ensures
        group_views(groups@) == symptoms_by_date(rows@),
        forall|g: int| 0 <= g < groups.len() ==> (#[trigger] groups[g]).symptoms@.len() > 0,
        forall|a: int, b: int|
            0 <= a < b < groups.len() ==> (#[trigger] groups[a]).logged_at.day_number() < (
            #[trigger] groups[b]).logged_at.day_number(),
{
    let ghost found = symptoms_by_date(rows@);
    let sorted = sort_by_date(rows);
    let runs = split_by_gap(sorted, 0);
    let ghost all = runs@;
    let ghost cut = run_views(all);
    proof {
        lemma_logs_by_date(rows@);
        assert(cut == logs_by_date(rows@));
        assert forall|r: int| 0 <= r < all.len() implies (#[trigger] all[r])@.len() > 0 by {
            assert(cut[r] == all[r]@);
        }
    }
    let mut groups: Vec<SymptomsByDate> = Vec::new();
    for run in it: runs
        invariant
            it.seq() == all,
            cut == run_views(all),
            found == cut.map_values(to_symptoms_of_day()),
            forall|r: int| 0 <= r < all.len() ==> (#[trigger] all[r])@.len() > 0,
            group_views(groups@) == found.take(it.index()),
    {
        let ghost n = it.index();
        let ghost closed = group_views(groups@);
        assert(all[n] == run);
        assert(cut[n] == run@);
        let group = symptoms_from(run);
        groups.push(group);
        proof {
            assert(group_views(groups@) =~= closed.push(found[n]));
            assert(found.take(n + 1) =~= found.take(n).push(found[n]));
        }
    }
    proof {
        assert(found.take(found.len() as int) =~= found);
        assert forall|g: int| 0 <= g < groups.len() implies (#[trigger] groups[g]).symptoms@.len()
            > 0 by {
            assert(groups[g]@ == found[g]);
            assert(found[g] == symptoms_of_day(cut[g]));
            assert(cut[g] == all[g]@);
            assert(text_views(groups[g].symptoms@).len() == groups[g].symptoms@.len());
        }
        assert forall|a: int, b: int| 0 <= a < b < groups.len() implies (#[trigger] groups[a])
            .logged_at.day_number() < (#[trigger] groups[b]).logged_at.day_number() by {
            assert(groups[a]@ == found[a]);
            assert(groups[b]@ == found[b]);
            assert(found[a] == symptoms_of_day(cut[a]));
            assert(found[b] == symptoms_of_day(cut[b]));
        }
    }
    groups
}

} // verus!
