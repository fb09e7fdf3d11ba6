//! The aggregation table: one record per key, in a hash map with the Fx
//! hasher, keyed by slices that borrow from the input.

use crate::listing::all_seen;
use crate::listing::is_listing;
use crate::listing::lemma_sorted_is_listing;
use crate::listing::listed;
use crate::listing::lists_once;
use crate::order::sort_entries;
use crate::stats::CityDetails;
use crate::stats::Stats;
use crate::tally::all_valid;
use crate::tally::no_records;
use crate::tally::record_of;
use crate::tally::with_observation;
use rustc_hash::FxBuildHasher;
use std::collections::HashMap;
use vstd::prelude::*;

verus! {

/// `rustc_hash::FxBuildHasher`, which makes the hashers of the table. It is
/// carried along in the table's type; nothing is said of what it computes.
#[verifier::external_type_specification]
#[verifier::external_body]
pub struct ExFxBuildHasher(FxBuildHasher);

/// A hash map from borrowed keys to their records, hashed with Fx.
pub type FxTable<'a> = HashMap<&'a [u8], CityDetails, FxBuildHasher>;

/// What a table holds: for each key, by its bytes, the record kept for it.
pub uninterp spec fn table_records(table: FxTable) -> Map<Seq<u8>, Stats>;

/// `FxHashMap::default()`, which makes a hash map with no entry in it.
#[verifier::external_body]
fn table_new<'a>() -> (fresh: FxTable<'a>)
    ensures
        table_records(fresh) == no_records(),
{
    HashMap::default()
}

/// `HashMap::entry(key).or_default()`: a mutable reference to the record
/// kept for `key`, after an empty record was put there if there was none.
/// The other entries stay as they are; what the caller leaves behind the
/// reference is what the table holds for `key` afterwards.
#[verifier::external_body]
fn table_slot<'t, 'a>(
    table: &'t mut FxTable<'a>,
    key: &'a [u8],
) -> (slot: &'t mut CityDetails)
    ensures
        slot@ == record_of(table_records(*old(table)), key@),
        table_records(*final(table)) == table_records(*old(table)).insert(key@, final(slot)@),
{
    table.entry(key).or_default()
}

/// `HashMap::into_iter().collect()`: the entries of the table in a vector,
/// each once, in an order that is not told.
#[verifier::external_body]
fn table_entries<'a>(table: FxTable<'a>) -> (entries: Vec<(&'a [u8], CityDetails)>)
    ensures
        lists_once(listed(entries@), table_records(table)),
{
    table.into_iter().collect()
}

/// The records of one pass, by key.
pub struct Aggregator<'a> {
    table: FxTable<'a>,
}

impl<'a> View for Aggregator<'a> {
    type V = Map<Seq<u8>, Stats>;

    closed spec fn view(&self) -> Map<Seq<u8>, Stats> {
        table_records(self.table)
    }
}

impl<'a> Aggregator<'a> {
    /// Every record in the table is valid and has seen a measurement.
    pub open spec fn wf(&self) -> bool {
        all_valid(self@)
    }

    /// A table with no record in it.
    pub fn new() -> (agg: Aggregator<'a>)
        ensures
            agg@ == no_records(),
            agg.wf(),
    {
        Aggregator { table: table_new() }
    }

    /// Takes the measurement `meas` into the record of `key`, which is made
    /// if the key is new. A record that is already full is left alone, and
    /// the answer is `false`.
    pub fn observe(&mut self, key: &'a [u8], meas: i16) -> (taken: bool)
        requires
            old(self).wf(),
        ensures
            final(self).wf(),
            taken == (record_of(old(self)@, key@).count < CityDetails::MAX_COUNT),
            taken ==> final(self)@ == with_observation(old(self)@, key@, meas as int),
            !taken ==> final(self)@ == old(self)@,
    {
        let slot = table_slot(&mut self.table, key);
        if slot.count() == CityDetails::MAX_COUNT {
            return false;
        }
        slot.update(meas);
        true
    }

    /// Hands the records out, sorted by key.
    pub fn finish(self) -> (entries: Vec<(&'a [u8], CityDetails)>)
        requires
            self.wf(),
        ensures
            is_listing(listed(entries@), self@),
            all_seen(listed(entries@)),
    {
        let mut entries = table_entries(self.table);
        let ghost unsorted = listed(entries@);
        sort_entries(&mut entries);
        proof {
            lemma_sorted_is_listing(unsorted, listed(entries@), self@);
        }
        entries
    }
}

} // verus!
