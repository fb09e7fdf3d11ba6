//! The finished summary: the records of a table as a sequence in key order.

use crate::order::lemma_lex_asymmetric;
use crate::order::lemma_lex_irreflexive;
use crate::order::lemma_lex_total;
use crate::order::lex_lt;
use crate::stats::CityDetails;
use crate::stats::Stats;
use vstd::prelude::*;

verus! {

/// The mathematical content of a sequence of entries: each key by its bytes,
/// each record by its view.
pub open spec fn listed(entries: Seq<(&[u8], CityDetails)>) -> Seq<(Seq<u8>, Stats)> {
    entries.map_values(|e: (&[u8], CityDetails)| (e.0@, e.1@))
}

/// Every entry is a record of the table, under its key.
pub open spec fn drawn_from(entries: Seq<(Seq<u8>, Stats)>, table: Map<Seq<u8>, Stats>) -> bool {
    forall|i: int|
        0 <= i < entries.len() ==> table.contains_key((#[trigger] entries[i]).0)
            && table[entries[i].0] == entries[i].1
}

/// Every key of the table has an entry.
pub open spec fn covers(entries: Seq<(Seq<u8>, Stats)>, table: Map<Seq<u8>, Stats>) -> bool {
    forall|k: Seq<u8>| #[trigger]
        table.contains_key(k) ==> exists|i: int|
            0 <= i < entries.len() && (#[trigger] entries[i]).0 == k
}

/// No two entries have the same key.
pub open spec fn distinct_keys(entries: Seq<(Seq<u8>, Stats)>) -> bool {
    forall|i: int, j: int|
        0 <= i < j < entries.len() ==> (#[trigger] entries[i]).0 != (#[trigger] entries[j]).0
}

/// No entry comes before an earlier one.
pub open spec fn ascending(entries: Seq<(Seq<u8>, Stats)>) -> bool {
    forall|i: int, j: int|
        0 <= i < j < entries.len() ==> !lex_lt((#[trigger] entries[j]).0, (#[trigger] entries[i]).0)
}

/// The keys grow strictly from each entry to the next.
pub open spec fn strictly_ascending(entries: Seq<(Seq<u8>, Stats)>) -> bool {
    forall|i: int, j: int|
        0 <= i < j < entries.len() ==> lex_lt((#[trigger] entries[i]).0, (#[trigger] entries[j]).0)
}

/// Every entry holds a valid record that has seen a measurement, so that its
/// mean exists.
pub open spec fn all_seen<K>(entries: Seq<(K, Stats)>) -> bool {
    forall|i: int|
        0 <= i < entries.len() ==> (#[trigger] entries[i]).1.valid() && entries[i].1.count > 0
}

/// The entries are the records of the table, each once, in any order.
pub open spec fn lists_once(entries: Seq<(Seq<u8>, Stats)>, table: Map<Seq<u8>, Stats>) -> bool {
    &&& distinct_keys(entries)
    &&& drawn_from(entries, table)
    &&& covers(entries, table)
}

/// The entries are the records of the table in strictly growing key order.
pub open spec fn is_listing(entries: Seq<(Seq<u8>, Stats)>, table: Map<Seq<u8>, Stats>) -> bool {
    &&& strictly_ascending(entries)
    &&& drawn_from(entries, table)
    &&& covers(entries, table)
}

/// Putting the entries of a table in ascending order gives its listing:
/// since no key occurs twice, ascending is strictly ascending.
pub proof fn lemma_sorted_is_listing(
    before: Seq<(Seq<u8>, Stats)>,
    after: Seq<(Seq<u8>, Stats)>,
    table: Map<Seq<u8>, Stats>,
)
    requires
        lists_once(before, table),
        before.to_multiset() == after.to_multiset(),
        ascending(after),
    ensures
        is_listing(after, table),
{
    broadcast use vstd::seq_lib::group_to_multiset_ensures;

    assert forall|j: int| 0 <= j < after.len() implies before.contains(#[trigger] after[j]) by {
        assert(after.contains(after[j]));
        assert(after.to_multiset().count(after[j]) > 0);
    }
    assert forall|i: int| 0 <= i < before.len() implies after.contains(#[trigger] before[i]) by {
        assert(before.contains(before[i]));
        assert(before.to_multiset().count(before[i]) > 0);
    }
    assert(drawn_from(after, table)) by {
        assert forall|j: int| 0 <= j < after.len() implies table.contains_key(
            (#[trigger] after[j]).0,
        ) && table[after[j].0] == after[j].1 by {
            let i = choose|i: int| 0 <= i < before.len() && before[i] == after[j];
            assert(table.contains_key(before[i].0));
        }
    }
    assert(covers(after, table)) by {
        assert forall|k: Seq<u8>| #[trigger] table.contains_key(k) implies exists|j: int|
            0 <= j < after.len() && (#[trigger] after[j]).0 == k by {
            let i = choose|i: int| 0 <= i < before.len() && (#[trigger] before[i]).0 == k;
            let j = choose|j: int| 0 <= j < after.len() && after[j] == before[i];
            assert(after[j].0 == k);
        }
    }
    assert(before.no_duplicates()) by {
        assert forall|i: int, j: int|
            0 <= i < before.len() && 0 <= j < before.len() && i != j implies before[i]
            != before[j] by {
            if i < j {
                assert(before[i].0 != before[j].0);
            } else {
                assert(before[j].0 != before[i].0);
            }
        }
    }
    before.lemma_multiset_has_no_duplicates();
    after.lemma_multiset_has_no_duplicates_conv();
    assert(strictly_ascending(after)) by {
        assert forall|i: int, j: int| 0 <= i < j < after.len() implies lex_lt(
            (#[trigger] after[i]).0,
            (#[trigger] after[j]).0,
        ) by {
            let p = choose|p: int| 0 <= p < before.len() && before[p] == after[i];
            let q = choose|q: int| 0 <= q < before.len() && before[q] == after[j];
            assert(after[i] != after[j]);
            assert(p != q);
            if p < q {
                assert(before[p].0 != before[q].0);
            } else {
                assert(before[q].0 != before[p].0);
            }
            lemma_lex_total(after[i].0, after[j].0);
        }
    }
}

/// A table has one listing only: two sequences that both list it in strictly
/// growing key order are the same sequence.
pub proof fn lemma_listing_unique(
    a: Seq<(Seq<u8>, Stats)>,
    b: Seq<(Seq<u8>, Stats)>,
    table: Map<Seq<u8>, Stats>,
)
    requires
        is_listing(a, table),
        is_listing(b, table),
    ensures
        a == b,
    decreases a.len(),
{
    if a.len() == 0 {
        if b.len() > 0 {
            assert(table.contains_key(b[0].0));
        }
        assert(a =~= b);
    } else if b.len() == 0 {
        assert(table.contains_key(a[0].0));
    } else {
        let ka = a.last().0;
        let kb = b.last().0;
        assert(table.contains_key(ka));
        assert(table.contains_key(kb));
        let j = choose|j: int| 0 <= j < b.len() && (#[trigger] b[j]).0 == ka;
        let i = choose|i: int| 0 <= i < a.len() && (#[trigger] a[i]).0 == kb;
        if j < b.len() - 1 && i < a.len() - 1 {
            assert(lex_lt(b[j].0, b[b.len() - 1].0));
            assert(lex_lt(a[i].0, a[a.len() - 1].0));
            lemma_lex_asymmetric(ka, kb);
        }
        assert(ka == kb);
        assert(a.last() == b.last());
        let rest = table.remove(ka);
        let a0 = a.drop_last();
        let b0 = b.drop_last();
        lemma_rest_is_listing(a, table);
        lemma_rest_is_listing(b, table);
        lemma_listing_unique(a0, b0, rest);
        assert(a =~= a0.push(a.last()));
        assert(b =~= b0.push(b.last()));
    }
}

/// Without its last entry a listing lists the table without its last key.
proof fn lemma_rest_is_listing(a: Seq<(Seq<u8>, Stats)>, table: Map<Seq<u8>, Stats>)
    requires
        is_listing(a, table),
        a.len() > 0,
    ensures
        is_listing(a.drop_last(), table.remove(a.last().0)),
{
    let a0 = a.drop_last();
    let rest = table.remove(a.last().0);
    assert forall|i: int, j: int| 0 <= i < j < a0.len() implies lex_lt(
        (#[trigger] a0[i]).0,
        (#[trigger] a0[j]).0,
    ) by {
        assert(lex_lt(a[i].0, a[j].0));
    }
    assert forall|i: int| 0 <= i < a0.len() implies rest.contains_key((#[trigger] a0[i]).0)
        && rest[a0[i].0] == a0[i].1 by {
        assert(table.contains_key(a[i].0));
        assert(lex_lt(a[i].0, a[a.len() - 1].0));
        lemma_lex_irreflexive(a[i].0);
    }
    assert forall|k: Seq<u8>| #[trigger] rest.contains_key(k) implies exists|i: int|
        0 <= i < a0.len() && (#[trigger] a0[i]).0 == k by {
        assert(table.contains_key(k));
        let i = choose|i: int| 0 <= i < a.len() && (#[trigger] a[i]).0 == k;
        assert(i < a.len() - 1);
        assert(a0[i].0 == k);
    }
}

} // verus!
