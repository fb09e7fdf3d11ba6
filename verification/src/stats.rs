//! The per-key statistics record and its mathematical model.

use vstd::prelude::*;

verus! {

/// What a record says about the measurements seen so far, as unbounded
/// integers. All values are in tenths.
pub struct Stats {
    pub min: int,
    pub max: int,
    pub sum: int,
    pub count: nat,
}

impl Stats {
    /// The record before any measurement: `min` and `max` start at the far
    /// ends of the `i16` range so that the first measurement replaces both.
    pub open spec fn empty() -> Stats {
        Stats { min: i16::MAX as int, max: i16::MIN as int, sum: 0, count: 0 }
    }

    /// The record after one more measurement `v`.
    pub open spec fn push(self, v: int) -> Stats {
        Stats {
            min: if v < self.min { v } else { self.min },
            max: if v > self.max { v } else { self.max },
            sum: self.sum + v,
            count: self.count + 1,
        }
    }

    /// The record of a whole sequence of measurements, taken left to right.
    pub open spec fn of(values: Seq<int>) -> Stats
        decreases values.len(),
    {
        if values.len() == 0 {
            Stats::empty()
        } else {
            Stats::of(values.drop_last()).push(values.last())
        }
    }

    /// The mean in tenths, rounded to the nearest tenth, a half away from
    /// zero: the whole number nearest to `sum / count`.
    pub open spec fn mean(self) -> int {
        if self.sum >= 0 {
            (2 * self.sum + self.count) / (2 * self.count as int)
        } else {
            -((2 * (-self.sum) + self.count) / (2 * self.count as int))
        }
    }

    /// What holds of every record that was built from `i16` measurements:
    /// an untouched record is exactly [`Stats::empty`]; a touched one has
    /// `min <= max`, and its mean `sum / count` lies between the two.
    pub open spec fn valid(self) -> bool {
        &&& i16::MIN <= self.min <= i16::MAX
        &&& i16::MIN <= self.max <= i16::MAX
        &&& self.count <= CityDetails::MAX_COUNT
        &&& self.count == 0 ==> self == Stats::empty()
        &&& self.count > 0 ==> {
            &&& self.min <= self.max
            &&& self.count * self.min <= self.sum <= self.count * self.max
        }
    }
}

/// Running minimum, maximum, sum and count of the measurements of one key.
///
/// The sum is kept in 64 bits: a record takes at most
/// [`CityDetails::MAX_COUNT`] measurements, each an `i16`, so the sum of all
/// of them stays below `2^47` in magnitude and the accumulator cannot wrap.
#[derive(Debug, Clone, Copy)]
pub struct CityDetails {
    /// The minimum * 10
    min: i16,
    /// The maximum * 10
    max: i16,
    /// The sum * 10
    sum: i64,
    /// The number of measurements
    count: u32,
}

impl View for CityDetails {
    type V = Stats;

    closed spec fn view(&self) -> Stats {
        Stats {
            min: self.min as int,
            max: self.max as int,
            sum: self.sum as int,
            count: self.count as nat,
        }
    }
}

impl Default for CityDetails {
    fn default() -> (d: CityDetails)
        ensures
            d@ == Stats::empty(),
            d.wf(),
    {
        CityDetails { min: i16::MAX, max: i16::MIN, sum: 0, count: 0 }
    }
}

impl CityDetails {
    /// The largest number of measurements one record can hold.
    pub const MAX_COUNT: u32 = u32::MAX;

    /// The record's invariant, see [`Stats::valid`].
    pub open spec fn wf(&self) -> bool {
        self@.valid()
    }

    /// The smallest measurement so far, in tenths.
    pub fn min(&self) -> (v: i16)
        ensures
            v == self@.min,
    {
        self.min
    }

    /// The largest measurement so far, in tenths.
    pub fn max(&self) -> (v: i16)
        ensures
            v == self@.max,
    {
        self.max
    }

    /// The sum of all measurements so far, in tenths.
    pub fn sum(&self) -> (v: i64)
        ensures
            v == self@.sum,
    {
        self.sum
    }

    /// The number of measurements taken so far.
    pub fn count(&self) -> (n: u32)
        ensures
            n == self@.count,
    {
        self.count
    }

    /// The mean of the measurements in tenths, rounded to the nearest
    /// tenth, a half away from zero.
    pub fn mean(&self) -> (v: i16)
        requires
            self.wf(),
            self@.count > 0,
        ensures
            v == self@.mean(),
            self@.min <= v <= self@.max,
    {
        proof {
            lemma_sum_bounded(self@);
            lemma_mean_between(self@);
        }
        let n = self.count as i64;
        if self.sum >= 0 {
            ((2 * self.sum + n) / (2 * n)) as i16
        } else {
            (-((2 * (-self.sum) + n) / (2 * n))) as i16
        }
    }

    /// Takes one more measurement into the record.
    pub fn update(&mut self, meas: i16)
        requires
            old(self).wf(),
            old(self)@.count < CityDetails::MAX_COUNT,
        ensures
            final(self)@ == old(self)@.push(meas as int),
            final(self).wf(),
    {
        proof {
            lemma_push_valid(self@, meas as int);
        }
        if self.min > meas {
            self.min = meas;
        }
        if self.max < meas {
            self.max = meas;
        }
        self.sum += meas as i64;
        self.count += 1;
    }
}

/// A valid record stays valid when it takes an `i16` measurement, as long as
/// it has room for one more; and its sum stays far inside the `i64` range.
pub proof fn lemma_push_valid(s: Stats, v: int)
    requires
        s.valid(),
        s.count < CityDetails::MAX_COUNT,
        i16::MIN <= v <= i16::MAX,
    ensures
        s.push(v).valid(),
        -0x8000_0000_0000 <= s.sum <= 0x8000_0000_0000,
        -0x8000_0000_0000 <= s.push(v).sum <= 0x8000_0000_0000,
{
    let t = s.push(v);
    let c = s.count as int;
    lemma_sum_bounded(s);
    if s.count > 0 {
        assert(c * t.min <= c * s.min) by (nonlinear_arith)
            requires
                c >= 0,
                t.min <= s.min,
        ;
        assert(c * s.max <= c * t.max) by (nonlinear_arith)
            requires
                c >= 0,
                s.max <= t.max,
        ;
    } else {
        assert(c * t.min == 0 && c * t.max == 0) by (nonlinear_arith)
            requires
                c == 0,
        ;
    }
    assert((c + 1) * t.min == c * t.min + t.min) by (nonlinear_arith);
    assert((c + 1) * t.max == c * t.max + t.max) by (nonlinear_arith);
    assert(t.count == c + 1);
    assert(t.count * t.min <= t.sum <= t.count * t.max);
    lemma_sum_bounded(t);
}

/// A record that has seen the one measurement `v` has `v` as its minimum,
/// its maximum and its mean.
pub proof fn lemma_single_measurement(v: int)
    requires
        i16::MIN <= v <= i16::MAX,
    ensures
        Stats::empty().push(v) == (Stats { min: v, max: v, sum: v, count: 1 }),
        Stats::empty().push(v).mean() == v,
{
    if v >= 0 {
        assert((2 * v + 1) / 2 == v);
    } else {
        assert((2 * (-v) + 1) / 2 == -v);
    }
}

/// What the record of a sequence of measurements holds: its count is their
/// number; its minimum and maximum are among them, and no measurement lies
/// below the one or above the other.
pub proof fn lemma_stats_of(values: Seq<int>)
    requires
        forall|i: int| 0 <= i < values.len() ==> i16::MIN <= #[trigger] values[i] <= i16::MAX,
    ensures
        Stats::of(values).count == values.len(),
        forall|i: int|
            0 <= i < values.len() ==> Stats::of(values).min <= #[trigger] values[i] <= Stats::of(
                values,
            ).max,
        values.len() > 0 ==> values.contains(Stats::of(values).min) && values.contains(
            Stats::of(values).max,
        ),
        values.len() == 0 ==> Stats::of(values) == Stats::empty(),
    decreases values.len(),
{
    if values.len() > 0 {
        let init = values.drop_last();
        let v = values.last();
        lemma_stats_of(init);
        let s = Stats::of(values);
        assert forall|i: int| 0 <= i < values.len() implies s.min <= #[trigger] values[i]
            <= s.max by {
            if i < init.len() {
                assert(values[i] == init[i]);
            }
        }
        if init.len() > 0 {
            let (lo, hi) = (Stats::of(init).min, Stats::of(init).max);
            let i = choose|i: int| 0 <= i < init.len() && init[i] == lo;
            let j = choose|j: int| 0 <= j < init.len() && init[j] == hi;
            assert(values[i] == lo && values[j] == hi);
        }
        assert(values[values.len() - 1] == v);
    }
}

/// However many measurements a record takes, up to the most it can count,
/// it stays valid, and neither its counter nor its sum leaves its type: the
/// sum of `MAX_COUNT` measurements of the largest magnitude is below `2^47`.
pub proof fn lemma_stats_fit(values: Seq<int>)
    requires
        forall|i: int| 0 <= i < values.len() ==> i16::MIN <= #[trigger] values[i] <= i16::MAX,
        values.len() <= CityDetails::MAX_COUNT,
    ensures
        Stats::of(values).valid(),
        Stats::of(values).count <= u32::MAX,
        i64::MIN < Stats::of(values).sum < i64::MAX,
    decreases values.len(),
{
    if values.len() > 0 {
        let init = values.drop_last();
        lemma_stats_fit(init);
        lemma_stats_of(init);
        lemma_push_valid(Stats::of(init), values.last());
    }
    lemma_sum_bounded(Stats::of(values));
}

/// The rounded mean is the whole number nearest to `sum / count`, and of two
/// that are equally near the one farther from zero: twice the distance
/// between `sum` and `mean * count` is at most `count`, and reaches `count`
/// only on the side of zero.
pub proof fn lemma_mean_nearest(s: Stats)
    requires
        s.count > 0,
    ensures
        s.sum >= 0 ==> -s.count <= 2 * (s.sum - s.mean() * s.count) < s.count,
        s.sum < 0 ==> -s.count < 2 * (s.sum - s.mean() * s.count) <= s.count,
{
    let n = s.count as int;
    let a = if s.sum >= 0 {
        s.sum
    } else {
        -s.sum
    };
    let q = (2 * a + n) / (2 * n);
    assert(q * (2 * n) <= 2 * a + n < (q + 1) * (2 * n)) by (nonlinear_arith)
        requires
            q == (2 * a + n) / (2 * n),
            n > 0,
    ;
    assert(q * n * 2 == q * (2 * n) && (q + 1) * (2 * n) == q * (2 * n) + 2 * n
        && (-q) * n == -(q * n)) by (nonlinear_arith);
}

/// The rounded mean of a valid record lies between its minimum and its
/// maximum.
pub proof fn lemma_mean_between(s: Stats)
    requires
        s.valid(),
        s.count > 0,
    ensures
        s.min <= s.mean() <= s.max,
{
    let n = s.count as int;
    let (lo, hi, sum) = (s.min, s.max, s.sum);
    if sum >= 0 {
        let q = (2 * sum + n) / (2 * n);
        assert(0 <= q && q * (2 * n) <= 2 * sum + n < (q + 1) * (2 * n)) by (nonlinear_arith)
            requires
                q == (2 * sum + n) / (2 * n),
                n > 0,
                sum >= 0,
        ;
        assert(q <= hi) by (nonlinear_arith)
            requires
                q * (2 * n) <= 2 * sum + n,
                sum <= n * hi,
                n > 0,
        ;
        assert(lo <= q) by (nonlinear_arith)
            requires
                2 * sum + n < (q + 1) * (2 * n),
                n * lo <= sum,
                n > 0,
                q >= 0,
        ;
    } else {
        let q = (2 * (-sum) + n) / (2 * n);
        assert(0 <= q && q * (2 * n) <= 2 * (-sum) + n < (q + 1) * (2 * n)) by (nonlinear_arith)
            requires
                q == (2 * (-sum) + n) / (2 * n),
                n > 0,
                sum < 0,
        ;
        assert(lo <= -q) by (nonlinear_arith)
            requires
                q * (2 * n) <= 2 * (-sum) + n,
                n * lo <= sum,
                n > 0,
        ;
        assert(-q <= hi) by (nonlinear_arith)
            requires
                2 * (-sum) + n < (q + 1) * (2 * n),
                sum <= n * hi,
                n > 0,
                q >= 0,
        ;
    }
}

/// The sum of a valid record is at most `count` times the largest `i16`
/// magnitude, which is below `2^47`.
pub proof fn lemma_sum_bounded(s: Stats)
    requires
        s.valid(),
    ensures
        -0x8000_0000_0000 <= s.sum <= 0x8000_0000_0000,
{
    let c = s.count as int;
    if s.count > 0 {
        assert(c * s.min >= c * (-0x8000)) by (nonlinear_arith)
            requires
                c >= 0,
                s.min >= -0x8000,
        ;
        assert(c * s.max <= c * 0x8000) by (nonlinear_arith)
            requires
                c >= 0,
                s.max <= 0x8000,
        ;
        assert(c * 0x8000 <= 0x1_0000_0000 * 0x8000) by (nonlinear_arith)
            requires
                c <= 0x1_0000_0000,
        ;
        assert(c * (-0x8000) >= 0x1_0000_0000 * (-0x8000)) by (nonlinear_arith)
            requires
                c <= 0x1_0000_0000,
        ;
    }
}

} // verus!
