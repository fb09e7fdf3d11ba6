//! The scanner: cuts the input into records of the form `key;value\n`.
//!
//! A key runs up to the next `;`, whatever bytes it holds; the value runs
//! from there up to the next line feed. Every record ends in a line feed,
//! the last one too: input that stops short of one is malformed.

use crate::decode::is_measurement;
use crate::decode::measurement_value;
use vstd::prelude::*;

verus! {

/// The byte `;`, which ends a key.
pub const FIELD_END: u8 = 0x3b;

/// The line feed, which ends a record.
pub const LINE_END: u8 = 0x0a;

/// Why a pass over the input was given up.
#[derive(Debug, Clone, Copy, PartialEq, Eq, Structural)]
pub enum IngestError {
    /// A record has no `;` before the input ends.
    MissingFieldDelimiter,
    /// A record has no line feed before the input ends.
    MissingLineDelimiter,
    /// The value of a record is not a measurement that fits in an `i16`.
    MalformedNumeric,
    /// A key has more measurements than a record can count.
    TooManyRecords,
}

/// `i` is the place of the first `needle` in `haystack`.
pub open spec fn is_first(haystack: Seq<u8>, needle: u8, i: int) -> bool {
    &&& 0 <= i < haystack.len()
    &&& haystack[i] == needle
    &&& forall|j: int| 0 <= j < i ==> haystack[j] != needle
}

/// `memchr::memchr` returns the index of the first occurrence of `needle`
/// in `haystack`, or `None` if there is none.
pub assume_specification[ memchr::memchr ](needle: u8, haystack: &[u8]) -> (found: Option<usize>)
    ensures
        found matches Some(i) ==> is_first(haystack@, needle, i as int),
        found is None ==> !haystack@.contains(needle),
;

/// How many bytes stand before the first `needle` in `s`; the length of `s`
/// if it holds none.
pub open spec fn first_index(s: Seq<u8>, needle: u8) -> nat
    decreases s.len(),
{
    if s.len() == 0 {
        0
    } else if s[0] == needle {
        0
    } else {
        1 + first_index(s.skip(1), needle)
    }
}

/// One record as it stands in the input.
pub struct Record {
    /// The bytes before the `;`.
    pub key: Seq<u8>,
    /// The bytes between the `;` and the line feed.
    pub numeric: Seq<u8>,
    /// The length of the record, both delimiters included.
    pub len: nat,
}

/// The record at the start of `rest`, which is not empty.
pub open spec fn first_record(rest: Seq<u8>) -> Result<Record, IngestError> {
    let key_len = first_index(rest, FIELD_END);
    if key_len >= rest.len() {
        Err(IngestError::MissingFieldDelimiter)
    } else {
        let after = rest.skip((key_len + 1) as int);
        let numeric_len = first_index(after, LINE_END);
        if numeric_len >= after.len() {
            Err(IngestError::MissingLineDelimiter)
        } else {
            Ok(
                Record {
                    key: rest.take(key_len as int),
                    numeric: after.take(numeric_len as int),
                    len: key_len + 1 + numeric_len + 1,
                },
            )
        }
    }
}

/// What the scanner and the decoder make of an input: the observations up
/// to the first record that is malformed, and what is wrong with that one.
pub struct Scan {
    /// Key and tenths of each good record, in the order of the input.
    pub observations: Seq<(Seq<u8>, int)>,
    /// Why the scan stopped before the end of the input, if it did.
    pub failure: Option<IngestError>,
}

/// Scans `rest` from its first byte to its end.
pub open spec fn scan(rest: Seq<u8>) -> Scan
    decreases rest.len(),
{
    if rest.len() == 0 {
        Scan { observations: Seq::empty(), failure: None }
    } else {
        match first_record(rest) {
            Err(e) => Scan { observations: Seq::empty(), failure: Some(e) },
            Ok(record) => if !is_measurement(record.numeric) {
                Scan { observations: Seq::empty(), failure: Some(IngestError::MalformedNumeric) }
            } else {
                let more = scan(rest.skip(record.len as int));
                Scan {
                    observations: seq![(record.key, measurement_value(record.numeric))]
                        + more.observations,
                    failure: more.failure,
                }
            },
        }
    }
}

/// `first_index` finds the first occurrence if there is one, and runs to the
/// end of `s` if there is none.
pub proof fn lemma_first_index_bound(s: Seq<u8>, needle: u8)
    ensures
        first_index(s, needle) <= s.len(),
        first_index(s, needle) < s.len() ==> is_first(s, needle, first_index(s, needle) as int),
        first_index(s, needle) == s.len() ==> !s.contains(needle),
    decreases s.len(),
{
    if s.len() > 0 && s[0] != needle {
        let t = s.skip(1);
        lemma_first_index_bound(t, needle);
        let n = first_index(t, needle) as int;
        if n < t.len() {
            assert(s[n + 1] == t[n]);
            assert forall|j: int| 0 <= j < n + 1 implies s[j] != needle by {
                if j > 0 {
                    assert(s[j] == t[j - 1]);
                }
            }
        } else {
            assert forall|j: int| 0 <= j < s.len() implies s[j] != needle by {
                if j > 0 {
                    assert(s[j] == t[j - 1]);
                    assert(t.contains(t[j - 1]));
                }
            }
        }
    }
}

/// The first occurrence is where `first_index` says.
pub proof fn lemma_first_is_first_index(s: Seq<u8>, needle: u8, i: int)
    requires
        is_first(s, needle, i),
    ensures
        first_index(s, needle) == i,
{
    lemma_first_index_bound(s, needle);
    let n = first_index(s, needle) as int;
    if n == s.len() {
        assert(s.contains(s[i]));
    }
}

/// Finds the record that starts at `pos`: its key and its value, as views
/// into `data`, and the place where the next record starts.
pub fn next_record<'a>(data: &'a [u8], pos: usize) -> (r: Result<
    (&'a [u8], &'a [u8], usize),
    IngestError,
>)
    requires
        pos < data@.len(),
    ensures
        match r {
            Ok((key, numeric, next)) => first_record(data@.skip(pos as int)) == Ok::<
                Record,
                IngestError,
            >(Record { key: key@, numeric: numeric@, len: (next - pos) as nat }) && pos < next
                <= data@.len(),
            Err(e) => first_record(data@.skip(pos as int)) == Err::<Record, IngestError>(e),
        },
{
    let end = data.len();
    let ghost rest = data@.skip(pos as int);
    let tail = &data[pos..end];
    assert(tail@ == rest);
    let key_len = match memchr::memchr(FIELD_END, tail) {
        Some(i) => i,
        None => {
            proof {
                lemma_first_index_bound(rest, FIELD_END);
            }
            return Err(IngestError::MissingFieldDelimiter);
        },
    };
    proof {
        lemma_first_is_first_index(rest, FIELD_END, key_len as int);
    }
    let key = &data[pos..pos + key_len];
    let numeric_start = pos + key_len + 1;
    let ghost after = rest.skip(key_len + 1);
    let tail = &data[numeric_start..end];
    assert(tail@ == after);
    let numeric_len = match memchr::memchr(LINE_END, tail) {
        Some(i) => i,
        None => {
            proof {
                lemma_first_index_bound(after, LINE_END);
            }
            return Err(IngestError::MissingLineDelimiter);
        },
    };
    proof {
        lemma_first_is_first_index(after, LINE_END, numeric_len as int);
    }
    let numeric = &data[numeric_start..numeric_start + numeric_len];
    assert(key@ == rest.take(key_len as int));
    assert(numeric@ == after.take(numeric_len as int));
    Ok((key, numeric, numeric_start + numeric_len + 1))
}

} // verus!
