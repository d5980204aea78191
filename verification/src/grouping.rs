//! Splitting a sequence into runs of neighbours that lie close together.

use crate::calendar::Date;
use crate::sorting::{date_key, is_sorted, Dated};
use vstd::prelude::*;

verus! {

/// The runs of `s`: `s` cut between every two neighbours whose keys lie more
/// than `max_gap` apart, and nowhere else.
pub open spec fn split_runs<T>(s: Seq<T>, key: spec_fn(T) -> int, max_gap: int) -> Seq<Seq<T>>
    decreases s.len(),
{
    if s.len() == 0 {
        Seq::empty()
    } else if s.len() == 1 {
        seq![s]
    } else {
        let before = split_runs(s.drop_last(), key, max_gap);
        if key(s.last()) - key(s[s.len() - 2]) > max_gap {
            before.push(seq![s.last()])
        } else {
            before.drop_last().push(before.last().push(s.last()))
        }
    }
}

/// How far the item at `k` lies after the item before it.
pub open spec fn step_at<T>(run: Seq<T>, key: spec_fn(T) -> int, k: int) -> int {
    key(run[k]) - key(run[k - 1])
}

/// How far the first item of the run at `r` lies after the last item of the
/// run before it.
pub open spec fn jump_at<T>(runs: Seq<Seq<T>>, key: spec_fn(T) -> int, r: int) -> int {
    key(runs[r][0]) - key(runs[r - 1].last())
}

/// No two neighbours within `run` lie more than `max_gap` apart.
pub open spec fn is_close_run<T>(run: Seq<T>, key: spec_fn(T) -> int, max_gap: int) -> bool {
    forall|k: int| 0 < k < run.len() ==> #[trigger] step_at(run, key, k) <= max_gap
}

/// `runs` cuts `s` into its maximal runs: put end to end the runs are `s`,
/// none is empty, neighbours within a run lie at most `max_gap` apart, and
/// where one run ends and the next begins they lie further apart.
pub open spec fn is_run_partition<T>(
    runs: Seq<Seq<T>>,
    s: Seq<T>,
    key: spec_fn(T) -> int,
    max_gap: int,
) -> bool {
    &&& runs.flatten() == s
    &&& forall|r: int| 0 <= r < runs.len() ==> (#[trigger] runs[r]).len() > 0
    &&& forall|r: int| 0 <= r < runs.len() ==> is_close_run(#[trigger] runs[r], key, max_gap)
    &&& forall|r: int| 0 < r < runs.len() ==> #[trigger] jump_at(runs, key, r) > max_gap
}

/// A partition stays one when a new run is opened by an item that lies more
/// than `max_gap` after the last.
pub proof fn lemma_open_run<T>(
    runs: Seq<Seq<T>>,
    s: Seq<T>,
    x: T,
    key: spec_fn(T) -> int,
    max_gap: int,
)
    requires
        is_run_partition(runs, s, key, max_gap),
        runs.len() > 0 ==> key(x) - key(runs.last().last()) > max_gap,
    ensures
        is_run_partition(runs.push(seq![x]), s.push(x), key, max_gap),
{
    let next = runs.push(seq![x]);
    runs.lemma_flatten_push(seq![x]);
    assert(s + seq![x] =~= s.push(x));
    assert forall|r: int| 0 <= r < next.len() implies (#[trigger] next[r]).len() > 0 by {
        if r < runs.len() {
            assert(next[r] == runs[r]);
        }
    }
    assert forall|r: int| 0 <= r < next.len() implies is_close_run(
        #[trigger] next[r],
        key,
        max_gap,
    ) by {
        if r < runs.len() {
            assert(next[r] == runs[r]);
        }
    }
    assert forall|r: int| 0 < r < next.len() implies #[trigger] jump_at(next, key, r)
        > max_gap by {
        assert(next[r - 1] == runs[r - 1]);
        if r < runs.len() {
            assert(next[r] == runs[r]);
            assert(jump_at(runs, key, r) > max_gap);
        }
    }
}

/// A partition stays one when its last run takes in an item that lies at most
/// `max_gap` after the last.
pub proof fn lemma_extend_run<T>(
    runs: Seq<Seq<T>>,
    s: Seq<T>,
    x: T,
    key: spec_fn(T) -> int,
    max_gap: int,
)
    requires
        is_run_partition(runs, s, key, max_gap),
        runs.len() > 0,
        key(x) - key(runs.last().last()) <= max_gap,
    ensures
        is_run_partition(runs.drop_last().push(runs.last().push(x)), s.push(x), key, max_gap),
{
    let open = runs.last();
    let kept = runs.drop_last();
    let next = kept.push(open.push(x));
    assert(open.len() > 0);
    assert(kept.push(open) =~= runs);
    kept.lemma_flatten_push(open);
    kept.lemma_flatten_push(open.push(x));
    assert(kept.flatten() + open.push(x) =~= (kept.flatten() + open).push(x));
    assert forall|r: int| 0 <= r < next.len() implies (#[trigger] next[r]).len() > 0 by {
        if r < kept.len() {
            assert(next[r] == runs[r]);
        }
    }
    assert forall|r: int| 0 <= r < next.len() implies is_close_run(
        #[trigger] next[r],
        key,
        max_gap,
    ) by {
        if r < kept.len() {
            assert(next[r] == runs[r]);
        } else {
            let grown = next[r];
            assert(grown == open.push(x));
            assert(is_close_run(open, key, max_gap));
            assert forall|k: int| 0 < k < grown.len() implies #[trigger] step_at(grown, key, k)
                <= max_gap by {
                if k < open.len() {
                    assert(grown[k] == open[k]);
                    assert(grown[k - 1] == open[k - 1]);
                    assert(step_at(open, key, k) <= max_gap);
                }
            }
        }
    }
    assert forall|r: int| 0 < r < next.len() implies #[trigger] jump_at(next, key, r)
        > max_gap by {
        assert(next[r - 1] == runs[r - 1]);
        assert(jump_at(runs, key, r) > max_gap);
        if r < kept.len() {
            assert(next[r] == runs[r]);
        } else {
            assert(next[r][0] == runs[r][0]);
        }
    }
}

/// `split_runs` cuts a sequence into its maximal runs, and the last run ends
/// with the last item.
pub proof fn lemma_split_runs<T>(s: Seq<T>, key: spec_fn(T) -> int, max_gap: int)
    ensures
        is_run_partition(split_runs(s, key, max_gap), s, key, max_gap),
        s.len() > 0 ==> split_runs(s, key, max_gap).len() > 0 && split_runs(
            s,
            key,
            max_gap,
        ).last().last() == s.last(),
        s.len() == 0 ==> split_runs(s, key, max_gap).len() == 0,
    decreases s.len(),
{
    if s.len() == 0 {
        assert(s =~= Seq::<T>::empty());
        assert(split_runs(s, key, max_gap).flatten() =~= s);
    } else {
        let front = s.drop_last();
        let before = split_runs(front, key, max_gap);
        let x = s.last();
        lemma_split_runs(front, key, max_gap);
        assert(front.push(x) =~= s);
        if s.len() == 1 {
            assert(seq![s] =~= before.push(seq![x]));
            lemma_open_run(before, front, x, key, max_gap);
        } else {
            assert(front.last() == s[s.len() - 2]);
            if key(x) - key(s[s.len() - 2]) > max_gap {
                lemma_open_run(before, front, x, key, max_gap);
            } else {
                lemma_extend_run(before, front, x, key, max_gap);
            }
        }
    }
}

/// The part of a partition that is left when the last item is taken away:
/// the last run without its last item, or no last run where that was its
/// only item.
pub open spec fn without_last_item<T>(runs: Seq<Seq<T>>) -> Seq<Seq<T>> {
    if runs.last().len() == 1 {
        runs.drop_last()
    } else {
        runs.drop_last().push(runs.last().drop_last())
    }
}

/// Taking the last item away from a partition of `s` leaves a partition of
/// `s` without its last item.
pub proof fn lemma_partition_without_last_item<T>(
    runs: Seq<Seq<T>>,
    s: Seq<T>,
    key: spec_fn(T) -> int,
    max_gap: int,
)
    requires
        is_run_partition(runs, s, key, max_gap),
        runs.len() > 0,
    ensures
        s.len() > 0,
        s.last() == runs.last().last(),
        is_run_partition(without_last_item(runs), s.drop_last(), key, max_gap),
{
    let last = runs.last();
    let kept = runs.drop_last();
    let rest = without_last_item(runs);
    assert(last.len() > 0);
    assert(kept.push(last) =~= runs);
    kept.lemma_flatten_push(last);
    assert(s == kept.flatten() + last);
    if last.len() == 1 {
        assert(s.drop_last() =~= kept.flatten());
    } else {
        kept.lemma_flatten_push(last.drop_last());
        assert(s.drop_last() =~= kept.flatten() + last.drop_last());
    }
    assert forall|r: int| 0 <= r < rest.len() implies (#[trigger] rest[r]).len() > 0 by {
        if r < kept.len() {
            assert(rest[r] == runs[r]);
        }
    }
    assert forall|r: int| 0 <= r < rest.len() implies is_close_run(
        #[trigger] rest[r],
        key,
        max_gap,
    ) by {
        if r < kept.len() {
            assert(rest[r] == runs[r]);
        } else {
            let cut = rest[r];
            assert(cut == last.drop_last());
            assert(is_close_run(runs[r], key, max_gap));
            assert forall|k: int| 0 < k < cut.len() implies #[trigger] step_at(cut, key, k)
                <= max_gap by {
                assert(step_at(last, key, k) <= max_gap);
            }
        }
    }
    assert forall|r: int| 0 < r < rest.len() implies #[trigger] jump_at(rest, key, r)
        > max_gap by {
        assert(jump_at(runs, key, r) > max_gap);
        assert(rest[r - 1] == runs[r - 1]);
        if r < kept.len() {
            assert(rest[r] == runs[r]);
        } else {
            assert(rest[r][0] == runs[r][0]);
        }
    }
}

/// There is one way only to cut a sequence into its maximal runs: a
/// partition of `s` is what `split_runs` gives.
pub proof fn lemma_run_partition_is_unique<T>(
    runs: Seq<Seq<T>>,
    s: Seq<T>,
    key: spec_fn(T) -> int,
    max_gap: int,
)
    requires
        is_run_partition(runs, s, key, max_gap),
    ensures
        runs == split_runs(s, key, max_gap),
    decreases s.len(),
{
    if runs.len() == 0 {
        assert(s.len() == 0);
        assert(runs =~= split_runs(s, key, max_gap));
    } else {
        let last = runs.last();
        let kept = runs.drop_last();
        let front = s.drop_last();
        let rest = without_last_item(runs);
        lemma_partition_without_last_item(runs, s, key, max_gap);
        lemma_run_partition_is_unique(rest, front, key, max_gap);
        lemma_split_runs(front, key, max_gap);
        assert(kept.push(last) =~= runs);
        if last.len() == 1 {
            assert(last =~= seq![s.last()]);
            if s.len() == 1 {
                assert(front.len() == 0);
                assert(kept.len() == 0);
                assert(last =~= s);
                assert(runs =~= seq![s]);
            } else {
                assert(front.last() == s[s.len() - 2]);
                assert(jump_at(runs, key, runs.len() - 1) > max_gap);
            }
        } else {
            let cut = last.drop_last();
            assert(cut.push(s.last()) =~= last);
            assert(rest.last() == cut);
            assert(rest.drop_last() =~= kept);
            assert(front.len() > 0);
            assert(front.last() == cut.last());
            assert(front.last() == s[s.len() - 2]);
            assert(is_close_run(last, key, max_gap));
            assert(step_at(last, key, last.len() - 1) <= max_gap);
        }
    }
}

/// Every run of a sorted sequence is sorted.
pub proof fn lemma_split_runs_sorted<T>(s: Seq<T>, key: spec_fn(T) -> int, max_gap: int)
    requires
        is_sorted(s, key),
    ensures
        forall|r: int|
            0 <= r < split_runs(s, key, max_gap).len() ==> is_sorted(
                #[trigger] split_runs(s, key, max_gap)[r],
                key,
            ),
    decreases s.len(),
{
    let runs = split_runs(s, key, max_gap);
    if s.len() == 1 {
        assert(runs[0] == s);
    } else if s.len() > 1 {
        let front = s.drop_last();
        let before = split_runs(front, key, max_gap);
        let x = s.last();
        assert forall|i: int, j: int| 0 <= i <= j < front.len() implies key(front[i]) <= key(
            front[j],
        ) by {
            assert(key(s[i]) <= key(s[j]));
        }
        lemma_split_runs_sorted(front, key, max_gap);
        lemma_split_runs(front, key, max_gap);
        assert(front.last() == s[s.len() - 2]);
        assert(key(s[s.len() - 2]) <= key(s[s.len() - 1]));
        let open = before.last();
        assert forall|r: int| 0 <= r < runs.len() implies is_sorted(#[trigger] runs[r], key) by {
            if r < before.len() - 1 {
                assert(runs[r] == before[r]);
            } else if key(x) - key(s[s.len() - 2]) > max_gap {
                if r < before.len() {
                    assert(runs[r] == before[r]);
                } else {
                    assert(runs[r] == seq![x]);
                }
            } else {
                let grown = runs[r];
                assert(grown == open.push(x));
                assert(is_sorted(open, key));
                assert forall|i: int, j: int| 0 <= i <= j < grown.len() implies key(grown[i])
                    <= key(grown[j]) by {
                    if j < open.len() {
                        assert(key(open[i]) <= key(open[j]));
                    } else if i < open.len() {
                        assert(key(open[i]) <= key(open[open.len() - 1]));
                    }
                }
            }
        }
    }
}

/// Where every item of `s` lies at least `least` after the item before it,
/// so does every item of a run.
pub proof fn lemma_split_runs_steps<T>(
    s: Seq<T>,
    key: spec_fn(T) -> int,
    max_gap: int,
    least: int,
)
    requires
        forall|i: int| 0 < i < s.len() ==> #[trigger] step_at(s, key, i) >= least,
    ensures
        forall|r: int, k: int|
            0 <= r < split_runs(s, key, max_gap).len() && 0 < k < split_runs(
                s,
                key,
                max_gap,
            )[r].len() ==> #[trigger] step_at(split_runs(s, key, max_gap)[r], key, k) >= least,
    decreases s.len(),
{
    let runs = split_runs(s, key, max_gap);
    if s.len() == 1 {
        assert(runs[0] == s);
    } else if s.len() > 1 {
        let front = s.drop_last();
        let before = split_runs(front, key, max_gap);
        let x = s.last();
        assert forall|i: int| 0 < i < front.len() implies #[trigger] step_at(front, key, i)
            >= least by {
            assert(step_at(s, key, i) >= least);
        }
        lemma_split_runs_steps(front, key, max_gap, least);
        lemma_split_runs(front, key, max_gap);
        assert(front.last() == s[s.len() - 2]);
        assert(step_at(s, key, s.len() - 1) >= least);
        let open = before.last();
        assert forall|r: int, k: int| 0 <= r < runs.len() && 0 < k < runs[r].len() implies
            #[trigger] step_at(runs[r], key, k) >= least by {
            if r < before.len() - 1 {
                assert(runs[r] == before[r]);
                assert(step_at(before[r], key, k) >= least);
            } else if key(x) - key(s[s.len() - 2]) > max_gap {
                if r < before.len() {
                    assert(runs[r] == before[r]);
                    assert(step_at(before[r], key, k) >= least);
                } else {
                    assert(runs[r] == seq![x]);
                }
            } else {
                let grown = runs[r];
                assert(grown == open.push(x));
                if k < open.len() {
                    assert(step_at(before[r], key, k) >= least);
                    assert(grown[k] == open[k]);
                    assert(grown[k - 1] == open[k - 1]);
                } else {
                    assert(grown[k - 1] == open.last());
                }
            }
        }
    }
}

/// Where every run is sorted and `max_gap` is not negative, any later run of
/// a partition begins more than `max_gap` after any earlier run ends.
pub proof fn lemma_runs_lie_apart<T>(
    runs: Seq<Seq<T>>,
    s: Seq<T>,
    key: spec_fn(T) -> int,
    max_gap: int,
    a: int,
    b: int,
)
    requires
        is_run_partition(runs, s, key, max_gap),
        forall|r: int| 0 <= r < runs.len() ==> is_sorted(#[trigger] runs[r], key),
        0 <= max_gap,
        0 <= a < b < runs.len(),
    ensures
        key(runs[b][0]) - key(runs[a].last()) > max_gap,
    decreases b - a,
{
    assert(jump_at(runs, key, b) > max_gap);
    if a + 1 < b {
        lemma_runs_lie_apart(runs, s, key, max_gap, a, b - 1);
        let mid = runs[b - 1];
        assert(is_sorted(mid, key));
        assert(key(mid[0]) <= key(mid[mid.len() - 1]));
    }
}

/// The function that maps every item of a run with `f`.
pub open spec fn map_each<T, U>(f: spec_fn(T) -> U) -> spec_fn(Seq<T>) -> Seq<U> {
    |run: Seq<T>| run.map_values(f)
}

/// Cutting into runs and then mapping every item is mapping first and then
/// cutting, where the mapped items have the same keys.
pub proof fn lemma_split_runs_mapped<T, U>(
    s: Seq<T>,
    key: spec_fn(T) -> int,
    f: spec_fn(T) -> U,
    mapped_key: spec_fn(U) -> int,
    max_gap: int,
)
    requires
        forall|item: T| mapped_key(#[trigger] f(item)) == key(item),
    ensures
        split_runs(s, key, max_gap).map_values(map_each(f)) == split_runs(
            s.map_values(f),
            mapped_key,
            max_gap,
        ),
    decreases s.len(),
{
    let t = s.map_values(f);
    let runs = split_runs(s, key, max_gap);
    let mapped = split_runs(t, mapped_key, max_gap);
    if s.len() == 0 {
        assert(runs.map_values(map_each(f)) =~= mapped);
    } else if s.len() == 1 {
        assert(seq![s].map_values(map_each(f)) =~= seq![t]);
    } else {
        let front = s.drop_last();
        let before = split_runs(front, key, max_gap);
        lemma_split_runs_mapped(front, key, f, mapped_key, max_gap);
        lemma_split_runs(front, key, max_gap);
        assert(t.drop_last() =~= front.map_values(f));
        assert(t.last() == f(s.last()));
        assert(t[t.len() - 2] == f(s[s.len() - 2]));
        let mapped_before = before.map_values(map_each(f));
        if key(s.last()) - key(s[s.len() - 2]) > max_gap {
            assert(seq![s.last()].map_values(f) =~= seq![t.last()]);
            assert(before.push(seq![s.last()]).map_values(map_each(f)) =~= mapped_before.push(
                seq![t.last()],
            ));
        } else {
            assert(before.last().push(s.last()).map_values(f) =~= mapped_before.last().push(
                t.last(),
            ));
            assert(before.drop_last().push(before.last().push(s.last())).map_values(map_each(f))
                =~= mapped_before.drop_last().push(mapped_before.last().push(t.last())));
        }
    }
}

/// The items of each of the runs.
pub open spec fn run_views<T>(runs: Seq<Vec<T>>) -> Seq<Seq<T>> {
    runs.map_values(|run: Vec<T>| run@)
}

/// The records cut into runs: a new run begins with every record that lies
/// more than `max_gap` days after the record before it.
pub fn split_by_gap<T: Dated>(items: Vec<T>, max_gap: i64) -> (runs: Vec<Vec<T>>)
    ensures
        run_views(runs@) == split_runs(items@, date_key::<T>(), max_gap as int),
{
    let ghost all = items@;
    let ghost key = date_key::<T>();
    let mut runs: Vec<Vec<T>> = Vec::new();
    let mut current: Vec<T> = Vec::new();
    let mut last_date: Option<Date> = None;
    for item in it: items
        invariant
            key == date_key::<T>(),
            it.seq() == all,
            it.index() == 0 ==> runs@.len() == 0 && current@.len() == 0 && last_date is None,
            it.index() > 0 ==> {
                let found = split_runs(all.take(it.index()), key, max_gap as int);
                &&& found.len() > 0
                &&& current@ == found.last()
                &&& run_views(runs@) == found.drop_last()
                &&& last_date == Some(all[it.index() - 1].date_of())
            },
    {
        let ghost n = it.index();
        let ghost found = split_runs(all.take(n), key, max_gap as int);
        proof {
            assert(all.take(n + 1).drop_last() =~= all.take(n));
            assert(all.take(n + 1).last() == item);
            lemma_split_runs(all.take(n), key, max_gap as int);
        }
        let date = item.date();
        let starts_run = match last_date {
            Some(last) => date.days_since(&last) > max_gap,
            None => false,
        };
        if starts_run {
            let ghost closed = run_views(runs@);
            runs.push(current);
            current = Vec::new();
            proof {
                assert(run_views(runs@) =~= closed.push(found.last()));
                assert(found.drop_last().push(found.last()) =~= found);
                assert(found.push(seq![item]).drop_last() =~= found);
            }
        } else {
            proof {
                if n > 0 {
                    assert(found.drop_last().push(found.last().push(item)).drop_last()
                        =~= found.drop_last());
                } else {
                    assert(seq![all.take(1)].drop_last() =~= Seq::<Seq<T>>::empty());
                    assert(all.take(1) =~= seq![item]);
                }
            }
        }
        current.push(item);
        last_date = Some(date);
    }
    proof {
        assert(all.take(all.len() as int) =~= all);
    }
    if current.len() > 0 {
        let ghost found = split_runs(all, key, max_gap as int);
        let ghost closed = run_views(runs@);
        runs.push(current);
        proof {
            assert(run_views(runs@) =~= closed.push(found.last()));
            assert(found.drop_last().push(found.last()) =~= found);
        }
    } else {
        proof {
            assert(run_views(runs@) =~= split_runs(all, key, max_gap as int));
        }
    }
    runs
}

} // verus!
