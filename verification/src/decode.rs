//! The numeric decoder: from the bytes of a measurement to tenths.
//!
//! A measurement is written as an optional `-`, one or more digits, a `.`
//! and exactly one more digit, such as `-3.2`, `0.0` or `99.9`. Its value in
//! tenths is what the digits spell when the point is left out, and it has to
//! fit in an `i16`.

use vstd::prelude::*;

verus! {

/// The byte `0`.
pub const DIGIT_ZERO: u8 = 0x30;

/// The byte `9`.
pub const DIGIT_NINE: u8 = 0x39;

/// The byte `-`.
pub const MINUS: u8 = 0x2d;

/// The byte `.`.
pub const POINT: u8 = 0x2e;

/// The largest number that the digits before the point may spell: with any
/// more the value in tenths no longer fits in an `i16`.
pub const MAX_WHOLE: i32 = 3276;

/// Whether `b` is one of the bytes `0` to `9`.
pub open spec fn is_digit(b: u8) -> bool {
    DIGIT_ZERO <= b <= DIGIT_NINE
}

/// Whether every byte of `s` is a digit.
pub open spec fn all_digits(s: Seq<u8>) -> bool {
    forall|i: int| 0 <= i < s.len() ==> is_digit(#[trigger] s[i])
}

/// The number that a run of decimal digits spells.
pub open spec fn digits_value(s: Seq<u8>) -> nat
    decreases s.len(),
{
    if s.len() == 0 {
        0
    } else {
        digits_value(s.drop_last()) * 10 + (s.last() - DIGIT_ZERO) as nat
    }
}

/// Whether `s` starts with a `-`.
pub open spec fn has_sign(s: Seq<u8>) -> bool {
    s.len() > 0 && s[0] == MINUS
}

/// The measurement without its sign.
pub open spec fn unsigned_part(s: Seq<u8>) -> Seq<u8> {
    if has_sign(s) {
        s.skip(1)
    } else {
        s
    }
}

/// The digits before the point.
pub open spec fn whole_part(s: Seq<u8>) -> Seq<u8> {
    unsigned_part(s).take(unsigned_part(s).len() - 2)
}

/// The absolute value of the measurement, in tenths.
pub open spec fn magnitude(s: Seq<u8>) -> nat {
    digits_value(whole_part(s)) * 10 + (s.last() - DIGIT_ZERO) as nat
}

/// Whether `s` is a measurement whose value in tenths fits in an `i16`.
pub open spec fn is_measurement(s: Seq<u8>) -> bool {
    let body = unsigned_part(s);
    &&& body.len() >= 3
    &&& all_digits(whole_part(s))
    &&& body[body.len() - 2] == POINT
    &&& is_digit(body.last())
    &&& magnitude(s) <= i16::MAX
}

/// The exact value of a measurement, times ten.
pub open spec fn measurement_value(s: Seq<u8>) -> int {
    if has_sign(s) {
        -(magnitude(s) as int)
    } else {
        magnitude(s) as int
    }
}

/// What one pass over `s` accumulates when every digit is folded in and
/// every other byte is passed over.
pub open spec fn digit_fold(s: Seq<u8>) -> nat
    decreases s.len(),
{
    if s.len() == 0 {
        0
    } else if is_digit(s.last()) {
        digit_fold(s.drop_last()) * 10 + (s.last() - DIGIT_ZERO) as nat
    } else {
        digit_fold(s.drop_last())
    }
}

/// The pass never loses what it has accumulated.
proof fn lemma_digit_fold_grows(s: Seq<u8>, i: int)
    requires
        0 <= i <= s.len(),
    ensures
        digit_fold(s.take(i)) <= digit_fold(s),
    decreases s.len() - i,
{
    if i == s.len() {
        assert(s.take(i) == s);
    } else {
        lemma_digit_fold_grows(s, i + 1);
        assert(s.take(i + 1).drop_last() == s.take(i));
    }
}

/// Over digits alone the pass accumulates what they spell.
proof fn lemma_digit_fold_of_digits(s: Seq<u8>)
    requires
        all_digits(s),
    ensures
        digit_fold(s) == digits_value(s),
    decreases s.len(),
{
    if s.len() > 0 {
        lemma_digit_fold_of_digits(s.drop_last());
    }
}

/// A `-` in front of the digits changes nothing in what is accumulated.
proof fn lemma_digit_fold_skips_sign(s: Seq<u8>)
    requires
        has_sign(s),
        all_digits(s.skip(1)),
    ensures
        digit_fold(s) == digits_value(s.skip(1)),
    decreases s.len(),
{
    if s.len() == 1 {
        assert(digit_fold(s.drop_last()) == 0);
        assert(digits_value(s.skip(1)) == 0);
    } else {
        let t = s.drop_last();
        assert(t.skip(1) == s.skip(1).drop_last());
        assert(s.skip(1).last() == s.last());
        assert(is_digit(s.skip(1)[s.len() - 2]));
        assert forall|i: int| 0 <= i < t.skip(1).len() implies is_digit(#[trigger] t.skip(1)[i]) by {
            assert(t.skip(1)[i] == s.skip(1)[i]);
        }
        lemma_digit_fold_skips_sign(t);
    }
}

/// On a measurement, the single pass accumulates the magnitude.
proof fn lemma_digit_fold_of_measurement(s: Seq<u8>)
    requires
        is_measurement(s),
    ensures
        digit_fold(s) == magnitude(s),
{
    let body = unsigned_part(s);
    let upto_point = s.drop_last();
    let upto_whole = upto_point.drop_last();
    assert(s.last() == body.last());
    assert(upto_point.last() == body[body.len() - 2]);
    assert(digit_fold(s) == digit_fold(upto_point) * 10 + (s.last() - DIGIT_ZERO) as nat);
    assert(digit_fold(upto_point) == digit_fold(upto_whole));
    if has_sign(s) {
        assert(upto_whole.skip(1) == whole_part(s));
        lemma_digit_fold_skips_sign(upto_whole);
    } else {
        assert(upto_whole == whole_part(s));
        lemma_digit_fold_of_digits(upto_whole);
    }
}

/// In a measurement a `-` stands nowhere but in front.
proof fn lemma_sign_only_in_front(s: Seq<u8>, i: int)
    requires
        is_measurement(s),
        0 <= i < s.len(),
        s[i] == MINUS,
    ensures
        i == 0,
        has_sign(s),
{
    let body = unsigned_part(s);
    let j = if has_sign(s) { i - 1 } else { i };
    if j >= 0 {
        assert(body[j] == s[i]);
        if j < body.len() - 2 {
            assert(whole_part(s)[j] == body[j]);
        }
    }
}

/// Decodes a measurement into tenths with no check on its form: every digit
/// is folded into the result, a `-` makes it negative, the point is passed
/// over. The caller vouches for the form.
pub fn parse_digits(bytes: &[u8]) -> (v: i16)
    requires
        is_measurement(bytes@),
    ensures
        v == measurement_value(bytes@),
{
    let mut mul: i16 = 1;
    let mut acc: i16 = 0;
    let mut i: usize = 0;
    while i < bytes.len()
        invariant
            i <= bytes.len(),
            is_measurement(bytes@),
            acc == digit_fold(bytes@.take(i as int)),
            mul == (if i > 0 && has_sign(bytes@) { -1int } else { 1int }),
        decreases bytes.len() - i,
    {
        let byte = bytes[i];
        proof {
            lemma_digit_fold_grows(bytes@, i + 1);
            lemma_digit_fold_of_measurement(bytes@);
            assert(bytes@.take(i + 1).drop_last() == bytes@.take(i as int));
            assert(bytes@.take(i + 1).last() == byte);
        }
        match byte {
            DIGIT_ZERO..=DIGIT_NINE => {
                acc = acc * 10 + (byte - DIGIT_ZERO) as i16;
            },
            MINUS => {
                proof {
                    lemma_sign_only_in_front(bytes@, i as int);
                }
                mul = -1;
            },
            _ => (),
        }
        i += 1;
    }
    proof {
        assert(bytes@.take(i as int) == bytes@);
        lemma_digit_fold_of_measurement(bytes@);
    }
    mul * acc
}

/// The first digits of a run never spell more than the whole run.
proof fn lemma_digits_value_grows(s: Seq<u8>, i: int)
    requires
        0 <= i <= s.len(),
    ensures
        digits_value(s.take(i)) <= digits_value(s),
    decreases s.len() - i,
{
    if i == s.len() {
        assert(s.take(i) == s);
    } else {
        lemma_digits_value_grows(s, i + 1);
        assert(s.take(i + 1).drop_last() == s.take(i));
    }
}

/// Decodes `bytes` into tenths if they are a measurement, and says so if
/// they are not.
pub fn parse_digits_checked(bytes: &[u8]) -> (r: Option<i16>)
    ensures
        r is Some <==> is_measurement(bytes@),
        r matches Some(v) ==> v == measurement_value(bytes@),
{
    let n = bytes.len();
    let start: usize = if n > 0 && bytes[0] == MINUS {
        1
    } else {
        0
    };
    if n - start < 3 {
        return None;
    }
    let last = bytes[n - 1];
    if bytes[n - 2] != POINT || last < DIGIT_ZERO || last > DIGIT_NINE {
        return None;
    }
    let ghost whole_seq = whole_part(bytes@);
    let mut whole: i32 = 0;
    let mut i: usize = start;
    while i < n - 2
        invariant
            n == bytes.len(),
            start <= i <= n - 2,
            start == (if has_sign(bytes@) { 1int } else { 0int }),
            whole_seq == whole_part(bytes@),
            all_digits(whole_seq.take(i - start)),
            whole == digits_value(whole_seq.take(i - start)),
            whole <= MAX_WHOLE,
        decreases n - i,
    {
        let byte = bytes[i];
        proof {
            assert(whole_seq[i - start] == byte);
            assert(whole_seq.take(i + 1 - start).drop_last() == whole_seq.take(i - start));
            lemma_digits_value_grows(whole_seq, i + 1 - start);
        }
        if byte < DIGIT_ZERO || byte > DIGIT_NINE {
            return None;
        }
        whole = whole * 10 + (byte - DIGIT_ZERO) as i32;
        if whole > MAX_WHOLE {
            return None;
        }
        i += 1;
    }
    assert(whole_seq.take(i - start) == whole_seq);
    let tenths: i32 = whole * 10 + (last - DIGIT_ZERO) as i32;
    if tenths > i16::MAX as i32 {
        return None;
    }
    if start == 1 {
        Some(-(tenths as i16))
    } else {
        Some(tenths as i16)
    }
}

} // verus!
