//! The order of keys: byte by byte, with no regard to locale or case.

use crate::listing::ascending;
use crate::listing::listed;
use crate::stats::CityDetails;
use bstr::BStr;
use std::cmp::Ordering;
use vstd::prelude::*;

verus! {

/// Whether `a` comes strictly before `b` in byte-lexicographic order: at the
/// first place where the two differ `a` has the smaller byte, or `a` ends
/// there and `b` goes on.
pub open spec fn lex_lt(a: Seq<u8>, b: Seq<u8>) -> bool
    decreases a.len(),
{
    if b.len() == 0 {
        false
    } else if a.len() == 0 {
        true
    } else if a[0] != b[0] {
        a[0] < b[0]
    } else {
        lex_lt(a.skip(1), b.skip(1))
    }
}

/// No key comes before itself.
pub proof fn lemma_lex_irreflexive(a: Seq<u8>)
    ensures
        !lex_lt(a, a),
    decreases a.len(),
{
    if a.len() > 0 {
        lemma_lex_irreflexive(a.skip(1));
    }
}

/// Of two different keys one comes before the other.
pub proof fn lemma_lex_total(a: Seq<u8>, b: Seq<u8>)
    requires
        a != b,
    ensures
        lex_lt(a, b) || lex_lt(b, a),
    decreases a.len(),
{
    if a.len() > 0 && b.len() > 0 && a[0] == b[0] {
        if a.skip(1) == b.skip(1) {
            assert(a =~= seq![a[0]] + a.skip(1));
            assert(b =~= seq![b[0]] + b.skip(1));
        }
        lemma_lex_total(a.skip(1), b.skip(1));
    } else if a.len() == 0 && b.len() == 0 {
        assert(a =~= b);
    }
}

/// Never both: `a` before `b` and `b` before `a`.
pub proof fn lemma_lex_asymmetric(a: Seq<u8>, b: Seq<u8>)
    ensures
        !(lex_lt(a, b) && lex_lt(b, a)),
    decreases a.len(),
{
    if a.len() > 0 && b.len() > 0 && a[0] == b[0] {
        lemma_lex_asymmetric(a.skip(1), b.skip(1));
    }
}

/// `Ord::cmp` of `bstr::BStr`, which hands the two byte strings to the
/// comparison of byte slices: `Less` exactly when `a` comes before `b`
/// byte by byte, `Greater` exactly when `b` comes before `a`.
#[verifier::external_body]
pub(crate) fn compare_keys(a: &[u8], b: &[u8]) -> (o: Ordering)
    ensures
        (o == Ordering::Less) == lex_lt(a@, b@),
        (o == Ordering::Greater) == lex_lt(b@, a@),
{
    BStr::new(a).cmp(BStr::new(b))
}

/// The order of two entries is the order of their keys.
pub(crate) fn entry_order(a: &(&[u8], CityDetails), b: &(&[u8], CityDetails)) -> (o: Ordering)
    ensures
        (o == Ordering::Less) == lex_lt(a.0@, b.0@),
        (o == Ordering::Greater) == lex_lt(b.0@, a.0@),
{
    compare_keys(a.0, b.0)
}

/// `sort_unstable_by` of slices, with the order of keys: the entries are
/// rearranged, none is lost or added, and afterwards no entry comes before
/// an earlier one.
#[verifier::external_body]
pub(crate) fn sort_entries<'a>(entries: &mut Vec<(&'a [u8], CityDetails)>)
    ensures
        listed(final(entries)@).to_multiset() == listed(old(entries)@).to_multiset(),
        ascending(listed(final(entries)@)),
{
    entries.sort_unstable_by(|a, b| entry_order(a, b));
}

} // verus!
