//! The mathematics of aggregation: what a table of records is after a
//! sequence of observations, whatever holds the table at run time.

use crate::stats::lemma_single_measurement;
use crate::stats::CityDetails;
use crate::stats::Stats;
use vstd::prelude::*;

verus! {

/// The table before any observation.
pub open spec fn no_records() -> Map<Seq<u8>, Stats> {
    Map::empty()
}

/// The record that `table` keeps for `key`; the empty record if it keeps none.
pub open spec fn record_of(table: Map<Seq<u8>, Stats>, key: Seq<u8>) -> Stats {
    if table.contains_key(key) {
        table[key]
    } else {
        Stats::empty()
    }
}

/// The table after the measurement `value` was observed for `key`.
pub open spec fn with_observation(table: Map<Seq<u8>, Stats>, key: Seq<u8>, value: int) -> Map<
    Seq<u8>,
    Stats,
> {
    table.insert(key, record_of(table, key).push(value))
}

/// The table after all of `observations`, taken left to right from an empty
/// table.
pub open spec fn aggregate(observations: Seq<(Seq<u8>, int)>) -> Map<Seq<u8>, Stats>
    decreases observations.len(),
{
    if observations.len() == 0 {
        no_records()
    } else {
        with_observation(
            aggregate(observations.drop_last()),
            observations.last().0,
            observations.last().1,
        )
    }
}

/// Every record in the table is valid and has seen at least one measurement.
pub open spec fn all_valid(table: Map<Seq<u8>, Stats>) -> bool {
    forall|k: Seq<u8>| #[trigger] table.contains_key(k) ==> table[k].valid() && table[k].count > 0
}

/// The measurements that were observed for `key`, in the order in which
/// they came.
pub open spec fn values_of(observations: Seq<(Seq<u8>, int)>, key: Seq<u8>) -> Seq<int>
    decreases observations.len(),
{
    if observations.len() == 0 {
        Seq::empty()
    } else if observations.last().0 == key {
        values_of(observations.drop_last(), key).push(observations.last().1)
    } else {
        values_of(observations.drop_last(), key)
    }
}

/// The table keeps a record for exactly the keys that were observed, and the
/// record of a key is the record of the measurements observed for it: none
/// is counted twice, none is dropped, and no other key's measurement is
/// taken in.
pub proof fn lemma_aggregate_by_key(observations: Seq<(Seq<u8>, int)>, key: Seq<u8>)
    ensures
        aggregate(observations).contains_key(key) <==> values_of(observations, key).len() > 0,
        record_of(aggregate(observations), key) == Stats::of(values_of(observations, key)),
    decreases observations.len(),
{
    if observations.len() > 0 {
        lemma_aggregate_by_key(observations.drop_last(), key);
        if observations.last().0 == key {
            let values = values_of(observations, key);
            assert(values.drop_last() == values_of(observations.drop_last(), key));
        }
    }
}

/// A key that was observed exactly once has that one measurement as the
/// minimum, the maximum and the mean of its record.
pub proof fn lemma_observed_once(observations: Seq<(Seq<u8>, int)>, i: int)
    requires
        0 <= i < observations.len(),
        i16::MIN <= observations[i].1 <= i16::MAX,
        forall|j: int|
            0 <= j < observations.len() && j != i ==> (#[trigger] observations[j]).0
                != observations[i].0,
    ensures
        ({
            let record = record_of(aggregate(observations), observations[i].0);
            let value = observations[i].1;
            &&& record.min == value
            &&& record.max == value
            &&& record.mean() == value
            &&& record.count == 1
        }),
{
    let key = observations[i].0;
    let others = observations.remove(i);
    lemma_aggregate_remove(observations, i);
    lemma_aggregate_by_key(others, key);
    lemma_never_observed(others, key);
    lemma_single_measurement(observations[i].1);
}

/// A key that does not occur among the observations has no measurement.
proof fn lemma_never_observed(observations: Seq<(Seq<u8>, int)>, key: Seq<u8>)
    requires
        forall|j: int| 0 <= j < observations.len() ==> (#[trigger] observations[j]).0 != key,
    ensures
        values_of(observations, key).len() == 0,
    decreases observations.len(),
{
    if observations.len() > 0 {
        let init = observations.drop_last();
        assert forall|j: int| 0 <= j < init.len() implies (#[trigger] init[j]).0 != key by {
            assert(init[j] == observations[j]);
        }
        lemma_never_observed(init, key);
        assert(observations[observations.len() - 1].0 != key);
    }
}

/// Some key has more observations than a record can count.
pub open spec fn overflows(observations: Seq<(Seq<u8>, int)>) -> bool {
    exists|k: Seq<u8>| #[trigger]
        record_of(aggregate(observations), k).count > CityDetails::MAX_COUNT
}

/// One more observation at the end is one more step of the table.
pub proof fn lemma_aggregate_push(observations: Seq<(Seq<u8>, int)>, key: Seq<u8>, value: int)
    ensures
        aggregate(observations.push((key, value))) == with_observation(
            aggregate(observations),
            key,
            value,
        ),
{
    assert(observations.push((key, value)).drop_last() == observations);
}

/// Two observations can change places: the table after both is the same.
pub proof fn lemma_observations_commute(
    table: Map<Seq<u8>, Stats>,
    k1: Seq<u8>,
    v1: int,
    k2: Seq<u8>,
    v2: int,
)
    ensures
        with_observation(with_observation(table, k1, v1), k2, v2) == with_observation(
            with_observation(table, k2, v2),
            k1,
            v1,
        ),
{
    let one = with_observation(with_observation(table, k1, v1), k2, v2);
    let other = with_observation(with_observation(table, k2, v2), k1, v1);
    assert(one =~= other);
}

/// Any observation can be taken out of the sequence and made the last.
pub proof fn lemma_aggregate_remove(observations: Seq<(Seq<u8>, int)>, i: int)
    requires
        0 <= i < observations.len(),
    ensures
        aggregate(observations) == with_observation(
            aggregate(observations.remove(i)),
            observations[i].0,
            observations[i].1,
        ),
    decreases observations.len(),
{
    let last = observations.last();
    let init = observations.drop_last();
    if i == observations.len() - 1 {
        assert(observations.remove(i) == init);
    } else {
        lemma_aggregate_remove(init, i);
        assert(observations.remove(i).drop_last() == init.remove(i));
        assert(observations.remove(i).last() == last);
        lemma_observations_commute(
            aggregate(init.remove(i)),
            observations[i].0,
            observations[i].1,
            last.0,
            last.1,
        );
    }
}

/// Aggregation is independent of order: two sequences that hold the same
/// observations the same number of times, in whatever order, give the same
/// table, with the same minimum, maximum, sum and count for every key.
pub proof fn lemma_aggregate_permutation(a: Seq<(Seq<u8>, int)>, b: Seq<(Seq<u8>, int)>)
    requires
        a.to_multiset() == b.to_multiset(),
    ensures
        aggregate(a) == aggregate(b),
        overflows(a) == overflows(b),
    decreases a.len(),
{
    broadcast use vstd::seq_lib::group_to_multiset_ensures;

    if a.len() == 0 {
        assert(a.to_multiset().len() == a.len());
        assert(b.to_multiset().len() == b.len());
        assert(b =~= a);
    } else {
        let x = a.last();
        assert(a.contains(x));
        assert(b.to_multiset().count(x) > 0);
        let j = choose|j: int| 0 <= j < b.len() && b[j] == x;
        assert(a.remove(a.len() - 1) == a.drop_last());
        lemma_aggregate_permutation(a.drop_last(), b.remove(j));
        lemma_aggregate_remove(b, j);
    }
    assert(aggregate(a) == aggregate(b));
}

/// A key never has fewer observations in the whole sequence than in a part
/// of it taken from the front.
pub proof fn lemma_count_grows(observations: Seq<(Seq<u8>, int)>, n: int, key: Seq<u8>)
    requires
        0 <= n <= observations.len(),
    ensures
        record_of(aggregate(observations.take(n)), key).count <= record_of(
            aggregate(observations),
            key,
        ).count,
    decreases observations.len() - n,
{
    if n == observations.len() {
        assert(observations.take(n) == observations);
    } else {
        lemma_count_grows(observations, n + 1, key);
        assert(observations.take(n + 1).drop_last() == observations.take(n));
    }
}

} // verus!
