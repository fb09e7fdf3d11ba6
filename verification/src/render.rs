//! The text of the summary: `{key=min/mean/max, key=min/mean/max}`, every
//! value with one decimal.

use crate::decode::all_digits;
use crate::decode::digits_value;
use crate::decode::has_sign;
use crate::decode::is_digit;
use crate::decode::is_measurement;
use crate::decode::magnitude;
use crate::decode::measurement_value;
use crate::decode::unsigned_part;
use crate::decode::whole_part;
use crate::decode::DIGIT_ZERO;
use crate::decode::MINUS;
use crate::decode::POINT;
use crate::listing::all_seen;
use crate::listing::listed;
use crate::stats::CityDetails;
use crate::stats::Stats;
use bstr::BStr;
use vstd::prelude::*;
use vstd::string::StringExecFns;

verus! {

/// The byte `/`, which stands between the three values of a record.
pub const SLASH: u8 = 0x2f;

/// The decimal digits of `n`, the most significant first.
pub open spec fn decimal(n: nat) -> Seq<u8>
    decreases n,
{
    if n < 10 {
        seq![(DIGIT_ZERO + n) as u8]
    } else {
        decimal(n / 10).push((DIGIT_ZERO + n % 10) as u8)
    }
}

/// A value in tenths, written with its one decimal: `-15` is `-1.5`.
pub open spec fn tenths_text(t: int) -> Seq<u8> {
    let m = (if t < 0 {
        -t
    } else {
        t
    }) as nat;
    let unsigned = decimal(m / 10) + seq![POINT, (DIGIT_ZERO + m % 10) as u8];
    if t < 0 {
        seq![MINUS] + unsigned
    } else {
        unsigned
    }
}

/// The three values of a record: minimum, mean and maximum.
pub open spec fn stats_text(s: Stats) -> Seq<u8> {
    tenths_text(s.min) + seq![SLASH] + tenths_text(s.mean()) + seq![SLASH] + tenths_text(s.max)
}

/// ASCII bytes as characters.
pub open spec fn as_text(bytes: Seq<u8>) -> Seq<char> {
    bytes.map_values(|b: u8| b as char)
}

/// One entry of the summary: `label=min/mean/max`.
pub open spec fn entry_text(entry: (Seq<char>, Stats)) -> Seq<char> {
    entry.0 + seq!['='] + as_text(stats_text(entry.1))
}

/// The entries of the summary, with `, ` between every two of them.
pub open spec fn entries_text(entries: Seq<(Seq<char>, Stats)>) -> Seq<char>
    decreases entries.len(),
{
    if entries.len() == 0 {
        Seq::empty()
    } else if entries.len() == 1 {
        entry_text(entries[0])
    } else {
        entries_text(entries.drop_last()) + seq![',', ' '] + entry_text(entries.last())
    }
}

/// The whole summary, in braces.
pub open spec fn summary_text(entries: Seq<(Seq<char>, Stats)>) -> Seq<char> {
    seq!['{'] + entries_text(entries) + seq!['}']
}

/// The mathematical content of labelled entries.
pub open spec fn labelled(entries: Seq<(String, CityDetails)>) -> Seq<(Seq<char>, Stats)> {
    entries.map_values(|e: (String, CityDetails)| (e.0@, e.1@))
}

/// The text that `bstr` shows for a key: the string read as UTF-8, with a
/// replacement character for what is not.
pub uninterp spec fn key_display(key: Seq<u8>) -> Seq<char>;

/// The entries with each key as `bstr` shows it.
pub open spec fn displayed(entries: Seq<(Seq<u8>, Stats)>) -> Seq<(Seq<char>, Stats)> {
    entries.map_values(|e: (Seq<u8>, Stats)| (key_display(e.0), e.1))
}

/// `Display` of `bstr::BStr`, through `to_string`: the text is a function
/// of the bytes alone.
#[verifier::external_body]
fn display_key(key: &[u8]) -> (text: String)
    ensures
        text@ == key_display(key@),
{
    BStr::new(key).to_string()
}

/// The digit `d` as text.
fn digit_text(d: u8) -> (text: &'static str)
    requires
        d < 10,
    ensures
        text@ == as_text(seq![(DIGIT_ZERO + d) as u8]),
{
    proof {
        reveal_strlit("0");
        reveal_strlit("1");
        reveal_strlit("2");
        reveal_strlit("3");
        reveal_strlit("4");
        reveal_strlit("5");
        reveal_strlit("6");
        reveal_strlit("7");
        reveal_strlit("8");
        reveal_strlit("9");
    }
    let text = match d {
        0 => "0",
        1 => "1",
        2 => "2",
        3 => "3",
        4 => "4",
        5 => "5",
        6 => "6",
        7 => "7",
        8 => "8",
        _ => "9",
    };
    assert(text@ =~= as_text(seq![(DIGIT_ZERO + d) as u8]));
    text
}

/// Writes the decimal digits of `n` at the end of `out`.
fn append_decimal(out: &mut String, n: u32)
    ensures
        final(out)@ == old(out)@ + as_text(decimal(n as nat)),
    decreases n,
{
    if n >= 10 {
        append_decimal(out, n / 10);
    }
    out.append(digit_text((n % 10) as u8));
    proof {
        let digit = seq![(DIGIT_ZERO + n % 10) as u8];
        if n >= 10 {
            assert(decimal(n as nat) == decimal((n / 10) as nat) + digit);
            assert(as_text(decimal(n as nat)) == as_text(decimal((n / 10) as nat)) + as_text(
                digit,
            ));
        } else {
            assert(decimal(n as nat) == digit);
        }
    }
}

/// Writes a value in tenths at the end of `out`, with its one decimal.
fn append_tenths(out: &mut String, t: i16)
    ensures
        final(out)@ == old(out)@ + as_text(tenths_text(t as int)),
{
    proof {
        reveal_strlit("-");
        reveal_strlit(".");
    }
    let m: u32 = if t < 0 {
        out.append("-");
        (-(t as i32)) as u32
    } else {
        t as u32
    };
    append_decimal(out, m / 10);
    out.append(".");
    out.append(digit_text((m % 10) as u8));
    proof {
        let whole = decimal((m / 10) as nat);
        let tail = seq![POINT, (DIGIT_ZERO + m % 10) as u8];
        assert(as_text(tail) == "."@ + as_text(seq![(DIGIT_ZERO + m % 10) as u8]));
        assert(as_text(whole + tail) == as_text(whole) + as_text(tail));
        if t < 0 {
            assert(as_text(seq![MINUS] + (whole + tail)) == "-"@ + as_text(whole + tail));
        }
    }
}

impl CityDetails {
    /// The record as text, `min/mean/max`, every value with one decimal.
    pub fn to_text(&self) -> (text: String)
        requires
            self.wf(),
            self@.count > 0,
        ensures
            text@ == as_text(stats_text(self@)),
    {
        let mut text = String::new();
        append_stats(&mut text, self);
        text
    }
}

/// Writes the three values of a record at the end of `out`.
fn append_stats(out: &mut String, details: &CityDetails)
    requires
        details.wf(),
        details@.count > 0,
    ensures
        final(out)@ == old(out)@ + as_text(stats_text(details@)),
{
    proof {
        reveal_strlit("/");
    }
    let ghost s = details@;
    append_tenths(out, details.min());
    out.append("/");
    append_tenths(out, details.mean());
    out.append("/");
    append_tenths(out, details.max());
    proof {
        let slash = seq![SLASH];
        assert(as_text(slash) == "/"@);
        let a = tenths_text(s.min);
        let b = tenths_text(s.mean());
        let c = tenths_text(s.max);
        assert(as_text(a + slash + b + slash + c) == as_text(a) + as_text(slash) + as_text(b)
            + as_text(slash) + as_text(c));
    }
}

/// The summary of entries whose keys are text already.
pub fn format_labelled(entries: &Vec<(String, CityDetails)>) -> (text: String)
    requires
        all_seen(labelled(entries@)),
    ensures
        text@ == summary_text(labelled(entries@)),
{
    proof {
        reveal_strlit("{");
        reveal_strlit("}");
    }
    let ghost all = labelled(entries@);
    let mut text = String::new();
    text.append("{");
    let mut i: usize = 0;
    while i < entries.len()
        invariant
            i <= entries.len(),
            all == labelled(entries@),
            all_seen(all),
            text@ == seq!['{'] + entries_text(all.take(i as int)),
        decreases entries.len() - i,
    {
        proof {
            reveal_strlit("=");
            reveal_strlit(", ");
        }
        let ghost before = text@;
        if i > 0 {
            text.append(", ");
        }
        text.append(entries[i].0.as_str());
        text.append("=");
        assert(all[i as int].1.valid());
        append_stats(&mut text, &entries[i].1);
        proof {
            let upto = all.take(i + 1);
            let entry = entry_text(all[i as int]);
            assert(upto.drop_last() == all.take(i as int));
            assert(upto.last() == all[i as int]);
            assert(entry == entries[i as int].0@ + "="@ + as_text(stats_text(all[i as int].1)));
            if i > 0 {
                assert(entries_text(upto) == entries_text(all.take(i as int)) + ", "@ + entry);
                assert(text@ == before + ", "@ + entries[i as int].0@ + "="@ + as_text(
                    stats_text(all[i as int].1),
                ));
            } else {
                assert(entries_text(all.take(i as int)) == Seq::<char>::empty());
                assert(entries_text(upto) == entry);
                assert(text@ == before + entries[i as int].0@ + "="@ + as_text(
                    stats_text(all[i as int].1),
                ));
            }
            assert(text@ == seq!['{'] + entries_text(upto));
        }
        i += 1;
    }
    text.append("}");
    assert(all.take(i as int) == all);
    text
}

/// The summary of the entries that a pass gives, each key shown as `bstr`
/// shows a byte string.
pub fn format_summary(entries: &Vec<(&[u8], CityDetails)>) -> (text: String)
    requires
        all_seen(listed(entries@)),
    ensures
        text@ == summary_text(displayed(listed(entries@))),
{
    let mut shown: Vec<(String, CityDetails)> = Vec::new();
    let mut i: usize = 0;
    while i < entries.len()
        invariant
            i <= entries.len(),
            all_seen(listed(entries@)),
            labelled(shown@) == displayed(listed(entries@)).take(i as int),
        decreases entries.len() - i,
    {
        let ghost before = labelled(shown@);
        shown.push((display_key(entries[i].0), entries[i].1));
        proof {
            let target = displayed(listed(entries@));
            assert(labelled(shown@) == before.push(target[i as int]));
            assert(target.take(i + 1) == target.take(i as int).push(target[i as int]));
        }
        i += 1;
    }
    proof {
        let target = displayed(listed(entries@));
        assert(target.take(i as int) == target);
        assert forall|j: int| 0 <= j < target.len() implies (#[trigger] target[j]).1.valid()
            && target[j].1.count > 0 by {
            assert(listed(entries@)[j].1.valid());
        }
    }
    format_labelled(&shown)
}

/// The digits of a number are digits, and they spell the number.
pub proof fn lemma_decimal_spells(n: nat)
    ensures
        decimal(n).len() >= 1,
        all_digits(decimal(n)),
        digits_value(decimal(n)) == n,
    decreases n,
{
    if n < 10 {
        assert(decimal(n).drop_last().len() == 0);
        assert(digits_value(decimal(n).drop_last()) == 0);
    } else {
        lemma_decimal_spells(n / 10);
        assert(decimal(n).drop_last() == decimal(n / 10));
    }
}

/// Writing and reading back lose nothing: the text of a value in tenths is a
/// measurement, and the decoder's value of that text is the value that was
/// written. This holds of every value whose magnitude fits in an `i16`, so
/// of everything between -3276.7 and 3276.7.
pub proof fn lemma_text_round_trip(t: int)
    requires
        -i16::MAX <= t <= i16::MAX,
    ensures
        is_measurement(tenths_text(t)),
        measurement_value(tenths_text(t)) == t,
{
    let m = (if t < 0 {
        -t
    } else {
        t
    }) as nat;
    let whole = decimal(m / 10);
    let tail = seq![POINT, (DIGIT_ZERO + m % 10) as u8];
    let text = tenths_text(t);
    lemma_decimal_spells(m / 10);
    assert(is_digit(whole[0]));
    assert(has_sign(text) == (t < 0));
    assert(unsigned_part(text) == whole + tail) by {
        if t < 0 {
            assert(text.skip(1) == whole + tail);
        }
    }
    assert(whole_part(text) == whole);
    assert(text.last() == (DIGIT_ZERO + m % 10) as u8);
    assert(magnitude(text) == m);
}

} // verus!
