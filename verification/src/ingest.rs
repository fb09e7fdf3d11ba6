//! The ingestion entry points: from the bytes of the input to the sorted
//! summary, in one pass.

use crate::decode::parse_digits;
use crate::decode::parse_digits_checked;
use crate::listing::all_seen;
use crate::listing::is_listing;
use crate::listing::lemma_listing_unique;
use crate::listing::listed;
use crate::render::displayed;
use crate::render::summary_text;
use crate::scan::next_record;
use crate::scan::scan;
use crate::scan::IngestError;
use crate::stats::CityDetails;
use crate::stats::Stats;
use crate::table::Aggregator;
use crate::tally::aggregate;
use crate::tally::all_valid;
use crate::tally::lemma_aggregate_permutation;
use crate::tally::lemma_aggregate_push;
use crate::tally::lemma_count_grows;
use crate::tally::overflows;
use crate::tally::record_of;
use vstd::prelude::*;

verus! {

/// What a pass over `data` comes to: the table of all its observations, or
/// the reason why the pass was given up. A key that runs out of room in its
/// record is met before the malformed record at which the scan stops.
pub open spec fn outcome(data: Seq<u8>) -> Result<Map<Seq<u8>, Stats>, IngestError> {
    let scanned = scan(data);
    if overflows(scanned.observations) {
        Err(IngestError::TooManyRecords)
    } else {
        match scanned.failure {
            Some(e) => Err(e),
            None => Ok(aggregate(scanned.observations)),
        }
    }
}

/// The order of the records does not matter: two inputs whose scans stop
/// for the same reason, or not at all, and give the same observations the
/// same number of times, in whatever order, have the same outcome.
pub proof fn lemma_outcome_order_independent(one: Seq<u8>, other: Seq<u8>)
    requires
        scan(one).failure == scan(other).failure,
        scan(one).observations.to_multiset() == scan(other).observations.to_multiset(),
    ensures
        outcome(one) == outcome(other),
{
    lemma_aggregate_permutation(scan(one).observations, scan(other).observations);
}

/// The outcome of a pass is settled by the input: two summaries of one input
/// that both list its table in strictly growing key order are the same
/// sequence, and so is their text.
pub proof fn lemma_pass_determined(
    data: Seq<u8>,
    one: Seq<(Seq<u8>, Stats)>,
    other: Seq<(Seq<u8>, Stats)>,
)
    requires
        outcome(data) is Ok,
        is_listing(one, outcome(data)->Ok_0),
        is_listing(other, outcome(data)->Ok_0),
    ensures
        one == other,
        summary_text(displayed(one)) == summary_text(displayed(other)),
{
    lemma_listing_unique(one, other, outcome(data)->Ok_0);
}

/// What the pass knows when it stands at `pos`: the observations `seen` so
/// far are the front of what a scan of all of `data` gives, and the rest of
/// the scan is the scan of what is left.
spec fn scanned_up_to(data: Seq<u8>, pos: int, seen: Seq<(Seq<u8>, int)>) -> bool {
    &&& scan(data).observations == seen + scan(data.skip(pos)).observations
    &&& scan(data).failure == scan(data.skip(pos)).failure
}

/// One good record further, the pass still knows what it knew.
proof fn lemma_scan_step(
    data: Seq<u8>,
    pos: int,
    seen: Seq<(Seq<u8>, int)>,
    next: int,
    observation: (Seq<u8>, int),
)
    requires
        0 <= pos < next <= data.len(),
        scanned_up_to(data, pos, seen),
        scan(data.skip(pos)).observations == seq![observation] + scan(
            data.skip(pos).skip(next - pos),
        ).observations,
        scan(data.skip(pos)).failure == scan(data.skip(pos).skip(next - pos)).failure,
    ensures
        scanned_up_to(data, next, seen.push(observation)),
        scan(data).observations.take(seen.len() as int + 1) == seen.push(observation),
{
    assert(data.skip(pos).skip(next - pos) == data.skip(next));
    let more = scan(data.skip(next)).observations;
    assert(seen + (seq![observation] + more) == seen.push(observation) + more);
    assert((seen.push(observation) + more).take(seen.len() as int + 1) == seen.push(observation));
}

/// A table in which every record is valid has no key that ran over.
proof fn lemma_valid_has_room(observations: Seq<(Seq<u8>, int)>)
    requires
        all_valid(aggregate(observations)),
    ensures
        !overflows(observations),
{
    assert forall|k: Seq<u8>| #[trigger]
        record_of(aggregate(observations), k).count <= CityDetails::MAX_COUNT by {
        if aggregate(observations).contains_key(k) {
            assert(aggregate(observations)[k].valid());
        }
    }
}

/// Reads the whole input and returns the statistics of each key, sorted by
/// key. The input is checked on the way: the pass is given up at the first
/// record that lacks a delimiter or whose value is no measurement, and at
/// the first key that has more measurements than a record can count.
pub fn read_mmap<'a>(data: &'a [u8]) -> (r: Result<Vec<(&'a [u8], CityDetails)>, IngestError>)
    ensures
        match r {
            Ok(entries) => {
                &&& outcome(data@) is Ok
                &&& is_listing(listed(entries@), outcome(data@)->Ok_0)
                &&& all_seen(listed(entries@))
            },
            Err(e) => outcome(data@) == Err::<Map<Seq<u8>, Stats>, IngestError>(e),
        },
{
    let mut agg = Aggregator::new();
    let mut pos: usize = 0;
    let ghost mut seen: Seq<(Seq<u8>, int)> = Seq::empty();
    assert(data@.skip(0) == data@);
    assert(seen + scan(data@).observations == scan(data@).observations);
    while pos < data.len()
        invariant
            pos <= data.len(),
            agg.wf(),
            agg@ == aggregate(seen),
            scanned_up_to(data@, pos as int, seen),
        decreases data.len() - pos,
    {
        proof {
            lemma_valid_has_room(seen);
        }
        let ghost rest = data@.skip(pos as int);
        let (key, numeric, next) = match next_record(data, pos) {
            Ok(found) => found,
            Err(e) => {
                assert(scan(data@).observations == seen);
                return Err(e);
            },
        };
        let meas = match parse_digits_checked(numeric) {
            Some(meas) => meas,
            None => {
                assert(scan(data@).observations == seen);
                return Err(IngestError::MalformedNumeric);
            },
        };
        let ghost observation = (key@, meas as int);
        proof {
            lemma_scan_step(data@, pos as int, seen, next as int, observation);
            lemma_aggregate_push(seen, key@, meas as int);
        }
        if !agg.observe(key, meas) {
            proof {
                lemma_count_grows(scan(data@).observations, seen.len() as int + 1, key@);
            }
            return Err(IngestError::TooManyRecords);
        }
        proof {
            seen = seen.push(observation);
        }
        pos = next;
    }
    proof {
        lemma_valid_has_room(seen);
        assert(scan(data@).observations == seen);
    }
    Ok(agg.finish())
}

/// Reads the whole input as [`read_mmap`] does, on the caller's word that
/// the input is good: every record has both delimiters, every value is a
/// measurement, and no key has more measurements than a record can count.
/// No fault is looked for, and each value is decoded by [`parse_digits`],
/// which takes the form of its input on trust. This is for input that has
/// been through the checked pass before, never for input of unknown make.
pub fn read_mmap_unsafe<'a>(data: &'a [u8]) -> (entries: Vec<(&'a [u8], CityDetails)>)
    requires
        outcome(data@) is Ok,
    ensures
        is_listing(listed(entries@), outcome(data@)->Ok_0),
        all_seen(listed(entries@)),
{
    let mut agg = Aggregator::new();
    let mut pos: usize = 0;
    let ghost mut seen: Seq<(Seq<u8>, int)> = Seq::empty();
    assert(data@.skip(0) == data@);
    assert(seen + scan(data@).observations == scan(data@).observations);
    while pos < data.len()
        invariant
            pos <= data.len(),
            outcome(data@) is Ok,
            agg.wf(),
            agg@ == aggregate(seen),
            scanned_up_to(data@, pos as int, seen),
        decreases data.len() - pos,
    {
        let (key, numeric, next) = next_record(data, pos).unwrap();
        let meas = parse_digits(numeric);
        let ghost observation = (key@, meas as int);
        proof {
            lemma_scan_step(data@, pos as int, seen, next as int, observation);
            lemma_aggregate_push(seen, key@, meas as int);
            lemma_count_grows(scan(data@).observations, seen.len() as int + 1, key@);
        }
        let taken = agg.observe(key, meas);
        assert(taken);
        proof {
            seen = seen.push(observation);
        }
        pos = next;
    }
    proof {
        assert(scan(data@).observations == seen);
    }
    agg.finish()
}

} // verus!
