//! Ordering records by their date. The order is stable: records of one day
//! keep the order in which they were given.

use crate::calendar::Date;
use vstd::prelude::*;

verus! {

/// A record that belongs to a day of the calendar.
pub trait Dated {
    /// The day the record belongs to.
    spec fn date_of(&self) -> Date;

    /// The day the record belongs to.
    fn date(&self) -> (date: Date)
        ensures
            date == self.date_of(),
    ;
}

impl Dated for Date {
    open spec fn date_of(&self) -> Date {
        *self
    }

    fn date(&self) -> (date: Date) {
        *self
    }
}

/// The key by which dated records are ordered: the day count of their date.
pub open spec fn date_key<T: Dated>() -> spec_fn(T) -> int {
    |item: T| item.date_of().day_number()
}

/// No item of `s` has a smaller key than an item before it.
pub open spec fn is_sorted<T>(s: Seq<T>, key: spec_fn(T) -> int) -> bool {
    forall|i: int, j: int| 0 <= i <= j < s.len() ==> key(s[i]) <= key(s[j])
}

/// `s` with `x` put in front of the first item whose key is not smaller than
/// that of `x`, or at the end if there is none.
pub open spec fn insert_ordered<T>(x: T, s: Seq<T>, key: spec_fn(T) -> int) -> Seq<T>
    decreases s.len(),
{
    if s.len() == 0 || key(x) <= key(s[0]) {
        seq![x] + s
    } else {
        seq![s[0]] + insert_ordered(x, s.drop_first(), key)
    }
}

/// The items of `s` in ascending order of their keys, items of equal keys in
/// the order they have in `s`.
pub open spec fn stable_sort<T>(s: Seq<T>, key: spec_fn(T) -> int) -> Seq<T>
    decreases s.len(),
{
    if s.len() == 0 {
        Seq::empty()
    } else {
        insert_ordered(s[0], stable_sort(s.drop_first(), key), key)
    }
}

/// Inserting in order is inserting at the first position whose item has a
/// key that is not smaller.
pub proof fn lemma_insert_ordered_at<T>(x: T, s: Seq<T>, key: spec_fn(T) -> int, p: int)
    requires
        0 <= p <= s.len(),
        forall|i: int| 0 <= i < p ==> key(#[trigger] s[i]) < key(x),
        p < s.len() ==> key(x) <= key(s[p]),
    ensures
        insert_ordered(x, s, key) == s.insert(p, x),
    decreases s.len(),
{
    if s.len() == 0 || key(x) <= key(s[0]) {
        assert(p == 0) by {
            if p > 0 {
                assert(key(s[0]) < key(x));
            }
        }
        assert(seq![x] + s =~= s.insert(0, x));
    } else {
        let rest = s.drop_first();
        assert forall|i: int| 0 <= i < p - 1 implies key(#[trigger] rest[i]) < key(x) by {
            assert(rest[i] == s[i + 1]);
        }
        lemma_insert_ordered_at(x, rest, key, p - 1);
        assert(seq![s[0]] + rest.insert(p - 1, x) =~= s.insert(p, x));
    }
}

/// The position at which `insert_ordered` puts `x`: the number of items at
/// the front of `s` whose keys are smaller than that of `x`.
pub open spec fn rank_of<T>(x: T, s: Seq<T>, key: spec_fn(T) -> int) -> int
    decreases s.len(),
{
    if s.len() == 0 || key(x) <= key(s[0]) {
        0
    } else {
        1 + rank_of(x, s.drop_first(), key)
    }
}

/// `rank_of` names the first position whose item has a key that is not
/// smaller, and `insert_ordered` inserts there.
pub proof fn lemma_rank_of<T>(x: T, s: Seq<T>, key: spec_fn(T) -> int)
    ensures
        0 <= rank_of(x, s, key) <= s.len(),
        forall|i: int| 0 <= i < rank_of(x, s, key) ==> key(#[trigger] s[i]) < key(x),
        rank_of(x, s, key) < s.len() ==> key(x) <= key(s[rank_of(x, s, key)]),
        insert_ordered(x, s, key) == s.insert(rank_of(x, s, key), x),
    decreases s.len(),
{
    if s.len() == 0 || key(x) <= key(s[0]) {
    } else {
        let rest = s.drop_first();
        lemma_rank_of(x, rest, key);
        let r = rank_of(x, rest, key);
        assert forall|i: int| 0 <= i < r + 1 implies key(#[trigger] s[i]) < key(x) by {
            if i > 0 {
                assert(s[i] == rest[i - 1]);
            }
        }
        if r + 1 < s.len() {
            assert(s[r + 1] == rest[r]);
        }
    }
    lemma_insert_ordered_at(x, s, key, rank_of(x, s, key));
}

/// Inserting in order keeps a sorted sequence sorted.
pub proof fn lemma_insert_ordered_sorted<T>(x: T, s: Seq<T>, key: spec_fn(T) -> int)
    requires
        is_sorted(s, key),
    ensures
        is_sorted(insert_ordered(x, s, key), key),
{
    lemma_rank_of(x, s, key);
    let r = rank_of(x, s, key);
    let t = s.insert(r, x);
    assert forall|i: int, j: int| 0 <= i <= j < t.len() implies key(t[i]) <= key(t[j]) by {
        if i < r && j > r {
            assert(key(s[i]) < key(x));
            assert(key(s[r]) <= key(s[j - 1]));
        } else if i < r && j < r {
            assert(key(s[i]) <= key(s[j]));
        } else if i > r {
            assert(key(s[i - 1]) <= key(s[j - 1]));
        } else if i == r && j > r {
            assert(key(s[r]) <= key(s[j - 1]));
        }
    }
}

/// Inserting in order adds the item and changes nothing else.
pub proof fn lemma_insert_ordered_items<T>(x: T, s: Seq<T>, key: spec_fn(T) -> int)
    ensures
        insert_ordered(x, s, key).len() == s.len() + 1,
        insert_ordered(x, s, key).to_multiset() == s.to_multiset().insert(x),
{
    broadcast use vstd::seq_lib::group_to_multiset_ensures;

    lemma_rank_of(x, s, key);
    let r = rank_of(x, s, key);
    let t = s.insert(r, x);
    assert(t.remove(r) =~= s);
    assert(t[r] == x);
    assert(t.contains(x));
    assert(t.to_multiset() =~= s.to_multiset().insert(x));
}

/// The sorted sequence is in ascending order of keys.
pub proof fn lemma_sort_is_sorted<T>(s: Seq<T>, key: spec_fn(T) -> int)
    ensures
        is_sorted(stable_sort(s, key), key),
    decreases s.len(),
{
    if s.len() > 0 {
        lemma_sort_is_sorted(s.drop_first(), key);
        lemma_insert_ordered_sorted(s[0], stable_sort(s.drop_first(), key), key);
    }
}

/// Sorting loses no item and adds none: the sorted sequence holds each item
/// as often as the given one.
pub proof fn lemma_sort_keeps_items<T>(s: Seq<T>, key: spec_fn(T) -> int)
    ensures
        stable_sort(s, key).len() == s.len(),
        stable_sort(s, key).to_multiset() == s.to_multiset(),
    decreases s.len(),
{
    broadcast use vstd::seq_lib::group_to_multiset_ensures;

    if s.len() == 0 {
        assert(s =~= Seq::<T>::empty());
    } else {
        let rest = s.drop_first();
        lemma_sort_keeps_items(rest, key);
        lemma_insert_ordered_items(s[0], stable_sort(rest, key), key);
        assert(s.remove(0) =~= rest);
        assert(s.contains(s[0]));
        assert(s.to_multiset() =~= rest.to_multiset().insert(s[0]));
    }
}

/// Sorting a sequence that is in order already changes nothing.
pub proof fn lemma_sort_of_sorted<T>(s: Seq<T>, key: spec_fn(T) -> int)
    requires
        is_sorted(s, key),
    ensures
        stable_sort(s, key) == s,
    decreases s.len(),
{
    if s.len() == 0 {
        assert(s =~= Seq::<T>::empty());
    } else {
        let rest = s.drop_first();
        assert forall|i: int, j: int| 0 <= i <= j < rest.len() implies key(rest[i]) <= key(
            rest[j],
        ) by {
            assert(key(s[i + 1]) <= key(s[j + 1]));
        }
        lemma_sort_of_sorted(rest, key);
        if rest.len() > 0 {
            assert(key(s[0]) <= key(s[1]));
        }
        lemma_insert_ordered_at(s[0], rest, key, 0);
        assert(rest.insert(0, s[0]) =~= s);
    }
}

/// Sorting twice gives what sorting once gives.
pub proof fn lemma_sort_idempotent<T>(s: Seq<T>, key: spec_fn(T) -> int)
    ensures
        stable_sort(stable_sort(s, key), key) == stable_sort(s, key),
{
    lemma_sort_is_sorted(s, key);
    lemma_sort_of_sorted(stable_sort(s, key), key);
}

/// Inserting in order and then mapping every item is mapping first and then
/// inserting, where the mapped items are ordered by the same keys.
pub proof fn lemma_insert_ordered_mapped<T, U>(
    x: T,
    s: Seq<T>,
    key: spec_fn(T) -> int,
    f: spec_fn(T) -> U,
    mapped_key: spec_fn(U) -> int,
)
    requires
        forall|item: T| mapped_key(#[trigger] f(item)) == key(item),
    ensures
        insert_ordered(x, s, key).map_values(f) == insert_ordered(
            f(x),
            s.map_values(f),
            mapped_key,
        ),
    decreases s.len(),
{
    let t = s.map_values(f);
    if s.len() == 0 || key(x) <= key(s[0]) {
        if s.len() > 0 {
            assert(t[0] == f(s[0]));
        }
        assert((seq![x] + s).map_values(f) =~= seq![f(x)] + t);
    } else {
        assert(t[0] == f(s[0]));
        assert(t.drop_first() =~= s.drop_first().map_values(f));
        lemma_insert_ordered_mapped(x, s.drop_first(), key, f, mapped_key);
        assert((seq![s[0]] + insert_ordered(x, s.drop_first(), key)).map_values(f) =~= seq![t[0]]
            + insert_ordered(f(x), t.drop_first(), mapped_key));
    }
}

/// Sorting and then mapping every item is mapping first and then sorting,
/// where the mapped items are ordered by the same keys.
pub proof fn lemma_sort_mapped<T, U>(
    s: Seq<T>,
    key: spec_fn(T) -> int,
    f: spec_fn(T) -> U,
    mapped_key: spec_fn(U) -> int,
)
    requires
        forall|item: T| mapped_key(#[trigger] f(item)) == key(item),
    ensures
        stable_sort(s, key).map_values(f) == stable_sort(s.map_values(f), mapped_key),
    decreases s.len(),
{
    let t = s.map_values(f);
    if s.len() == 0 {
        assert(stable_sort(s, key).map_values(f) =~= Seq::<U>::empty());
    } else {
        assert(t[0] == f(s[0]));
        assert(t.drop_first() =~= s.drop_first().map_values(f));
        lemma_sort_mapped(s.drop_first(), key, f, mapped_key);
        lemma_insert_ordered_mapped(s[0], stable_sort(s.drop_first(), key), key, f, mapped_key);
    }
}

/// The test that picks the items whose key is `k`.
pub open spec fn has_key<T>(key: spec_fn(T) -> int, k: int) -> spec_fn(T) -> bool {
    |item: T| key(item) == k
}

/// Inserting in order puts the item in front of the items of its own key and
/// leaves the items of every key in the order they had.
pub proof fn lemma_insert_ordered_stable<T>(x: T, s: Seq<T>, key: spec_fn(T) -> int, k: int)
    ensures
        insert_ordered(x, s, key).filter(has_key(key, k)) == (if key(x) == k {
            seq![x]
        } else {
            Seq::empty()
        }) + s.filter(has_key(key, k)),
    decreases s.len(),
{
    let p = has_key(key, k);
    if s.len() == 0 || key(x) <= key(s[0]) {
        s.lemma_filter_prepend(x, p);
    } else {
        let rest = s.drop_first();
        let put = insert_ordered(x, rest, key);
        lemma_insert_ordered_stable(x, rest, key, k);
        put.lemma_filter_prepend(s[0], p);
        rest.lemma_filter_prepend(s[0], p);
        assert(seq![s[0]] + rest =~= s);
        if key(x) == k {
            assert(!p(s[0]));
            assert(Seq::<T>::empty() + put.filter(p) =~= put.filter(p));
            assert(Seq::<T>::empty() + rest.filter(p) =~= rest.filter(p));
        } else {
            assert(Seq::<T>::empty() + rest.filter(p) =~= rest.filter(p));
        }
    }
}

/// Sorting is stable: the items of any one key stand in the sorted sequence
/// in the order they have in the given one.
pub proof fn lemma_sort_stable<T>(s: Seq<T>, key: spec_fn(T) -> int, k: int)
    ensures
        stable_sort(s, key).filter(has_key(key, k)) == s.filter(has_key(key, k)),
    decreases s.len(),
{
    let p = has_key(key, k);
    if s.len() == 0 {
        assert(s =~= Seq::<T>::empty());
    } else {
        let rest = s.drop_first();
        lemma_sort_stable(rest, key, k);
        lemma_insert_ordered_stable(s[0], stable_sort(rest, key), key, k);
        rest.lemma_filter_prepend(s[0], p);
        assert(seq![s[0]] + rest =~= s);
    }
}

/// No two items of `s` have the same key.
pub open spec fn has_distinct_keys<T>(s: Seq<T>, key: spec_fn(T) -> int) -> bool {
    forall|i: int, j: int| 0 <= i < j < s.len() ==> key(s[i]) != key(s[j])
}

/// Every item has a greater key than the items before it.
pub open spec fn is_strictly_sorted<T>(s: Seq<T>, key: spec_fn(T) -> int) -> bool {
    forall|i: int, j: int| 0 <= i < j < s.len() ==> key(s[i]) < key(s[j])
}

/// Every item of the sorted sequence is an item of the given one.
pub proof fn lemma_sort_item_is_given<T>(s: Seq<T>, key: spec_fn(T) -> int, i: int) -> (j: int)
    requires
        0 <= i < stable_sort(s, key).len(),
    ensures
        0 <= j < s.len(),
        s[j] == stable_sort(s, key)[i],
{
    broadcast use vstd::seq_lib::group_to_multiset_ensures;

    let sorted = stable_sort(s, key);
    lemma_sort_keeps_items(s, key);
    assert(sorted.contains(sorted[i]));
    assert(s.to_multiset().count(sorted[i]) > 0);
    assert(s.contains(sorted[i]));
    choose|j: int| 0 <= j < s.len() && s[j] == sorted[i]
}

/// Where no two items have the same key, the keys of the sorted sequence
/// grow from each item to the next.
pub proof fn lemma_sort_of_distinct<T>(s: Seq<T>, key: spec_fn(T) -> int)
    requires
        has_distinct_keys(s, key),
    ensures
        is_strictly_sorted(stable_sort(s, key), key),
    decreases s.len(),
{
    if s.len() > 0 {
        let rest = s.drop_first();
        let x = s[0];
        let t = stable_sort(rest, key);
        assert forall|i: int, j: int| 0 <= i < j < rest.len() implies key(rest[i]) != key(
            rest[j],
        ) by {
            assert(key(s[i + 1]) != key(s[j + 1]));
        }
        lemma_sort_of_distinct(rest, key);
        lemma_rank_of(x, t, key);
        let r = rank_of(x, t, key);
        let put = t.insert(r, x);
        if r < t.len() {
            let j = lemma_sort_item_is_given(rest, key, r);
            assert(key(s[0]) != key(s[j + 1]));
        }
        assert forall|i: int, j: int| 0 <= i < j < put.len() implies key(put[i]) < key(
            put[j],
        ) by {
            if i < r && j > r {
                assert(key(t[i]) < key(x));
                if j - 1 > r {
                    assert(key(t[r]) < key(t[j - 1]));
                }
            } else if i < r && j < r {
                assert(key(t[i]) < key(t[j]));
            } else if i > r {
                assert(key(t[i - 1]) < key(t[j - 1]));
            } else if i == r {
                if j - 1 > r {
                    assert(key(t[r]) < key(t[j - 1]));
                }
            }
        }
    }
}

/// The records in ascending order of date; records of one day stay in the
/// order in which they were given.
pub fn sort_by_date<T: Dated>(items: Vec<T>) -> (sorted: Vec<T>)
    ensures
        sorted@ == stable_sort(items@, date_key::<T>()),
{
    let ghost all = items@;
    let ghost key = date_key::<T>();
    let mut rest = items;
    let mut sorted: Vec<T> = Vec::new();
    assert(all.subrange(all.len() as int, all.len() as int) =~= Seq::<T>::empty());
    while rest.len() > 0
        invariant
            rest.len() <= all.len(),
            rest@ == all.take(rest.len() as int),
            sorted@ == stable_sort(all.subrange(rest.len() as int, all.len() as int), key),
            key == date_key::<T>(),
        decreases rest.len(),
    {
        let ghost tail = all.subrange(rest.len() as int, all.len() as int);
        let item = rest.pop().unwrap();
        let ghost from = all.subrange(rest.len() as int, all.len() as int);
        assert(from.drop_first() =~= tail);
        assert(from[0] == item);
        let day = item.date();
        let mut at: usize = 0;
        while at < sorted.len()
            invariant
                at <= sorted.len(),
                day == item.date_of(),
                key == date_key::<T>(),
                forall|i: int| 0 <= i < at ==> key(#[trigger] sorted@[i]) < key(item),
            ensures
                at <= sorted.len(),
                forall|i: int| 0 <= i < at ==> key(#[trigger] sorted@[i]) < key(item),
                at < sorted.len() ==> key(item) <= key(sorted@[at as int]),
            decreases sorted.len() - at,
        {
            if sorted[at].date().days_since(&day) >= 0 {
                break ;
            }
            at = at + 1;
        }
        proof {
            lemma_insert_ordered_at(item, sorted@, key, at as int);
        }
        sorted.insert(at, item);
        assert(rest@ =~= all.take(rest.len() as int));
    }
    assert(all.subrange(0, all.len() as int) =~= all);
    sorted
}

} // verus!
