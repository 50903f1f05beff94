use vstd::prelude::*;
use vstd::relations::total_ordering;
use vstd::relations::sorted_by;
use vstd::seq_lib::group_to_multiset_ensures;
use vstd::seq_lib::lemma_sorted_unique;
use vstd::multiset::group_multiset_axioms;
use vstd::arithmetic::mul::lemma_mul_inequality;
use vstd::arithmetic::div_mod::lemma_fundamental_div_mod;
use vstd::arithmetic::div_mod::lemma_div_is_ordered;
use vstd::arithmetic::div_mod::lemma_div_multiples_vanish;
use vstd::arithmetic::div_mod::lemma_div_pos_is_pos;
use crate::errors::TimeSeriesError;
use crate::wide::wide_val;
use crate::wide::square_wide;
use crate::wide::add_wide;
use crate::wide::div_wide;
use crate::wide::isqrt_wide;
use crate::fixed::VALUE_LIMIT;
use crate::fixed::MAX_SERIES_LEN;
use crate::fixed::ALPHA_SCALE;
use crate::fixed::in_range;
use crate::fixed::div_trunc;
use crate::fixed::is_finite_bits;
use crate::fixed::scaled_mag_of;
use crate::fixed::fixed_of_bits;
use crate::fixed::fixed_from_bits;

verus! {

/// Timestamps in non-decreasing order.
pub open spec fn ts_sorted(ts: Seq<u64>) -> bool {
    forall|i: int| 0 <= i < ts.len() - 1 ==> #[trigger] ts[i] <= ts[i + 1]
}

/// Every value inside the representable fixed-point range.
pub open spec fn all_in_range(vs: Seq<i128>) -> bool {
    forall|i: int| 0 <= i < vs.len() ==> in_range(#[trigger] vs[i])
}

/// Sum of a sequence of fixed-point values, as a mathematical integer.
pub open spec fn seq_sum(s: Seq<i128>) -> int
    decreases s.len(),
{
    if s.len() == 0 {
        0
    } else {
        seq_sum(s.drop_last()) + s.last()
    }
}

/// Arithmetic mean with rounding toward zero.
pub open spec fn mean_spec(s: Seq<i128>) -> int {
    div_trunc(seq_sum(s), s.len() as int)
}

/// Rounding toward zero keeps a quotient inside a symmetric bound.
pub proof fn lemma_div_trunc_bound(a: int, n: int, b: int)
    requires
        n >= 1,
        b >= 0,
        -(n * b) <= a <= n * b,
    ensures
        -b <= div_trunc(a, n) <= b,
{
    if a >= 0 {
        lemma_div_pos_is_pos(a, n);
        lemma_div_is_ordered(a, n * b, n);
        lemma_div_multiples_vanish(b, n);
        assert((n * b) / n == b);
    } else {
        lemma_div_pos_is_pos(-a, n);
        lemma_div_is_ordered(-a, n * b, n);
        lemma_div_multiples_vanish(b, n);
        assert((n * b) / n == b);
    }
}

/// Division rounding toward zero, matching `div_trunc`.
pub(crate) fn div_signed(a: i128, n: u128) -> (r: i128)
    requires
        1 <= n,
        (n as int) <= 0x7fffffffffffffffffffffffffffffff,
        -0x7fffffffffffffffffffffffffffffff <= (a as int),
    ensures
        (r as int) == div_trunc(a as int, n as int),
{
    if a >= 0 {
        let q: u128 = (a as u128) / n;
        proof {
            lemma_fundamental_div_mod(a as int, n as int);
            assert((q as int) <= (a as int)) by (nonlinear_arith)
                requires
                    (a as int) == (n as int) * (q as int) + (a as int) % (n as int),
                    (a as int) % (n as int) >= 0,
                    (n as int) >= 1,
                    (q as int) >= 0,
                    (a as int) >= 0,
            ;
        }
        q as i128
    } else {
        let m: u128 = (-a) as u128;
        let q: u128 = m / n;
        proof {
            lemma_fundamental_div_mod(m as int, n as int);
            assert((q as int) <= (m as int)) by (nonlinear_arith)
                requires
                    (m as int) == (n as int) * (q as int) + (m as int) % (n as int),
                    (m as int) % (n as int) >= 0,
                    (n as int) >= 1,
                    (q as int) >= 0,
                    (m as int) >= 0,
            ;
        }
        -(q as i128)
    }
}

/// First index of the trailing window that ends at `i`: the window
/// shrinks near the start of the series instead of being undefined.
pub open spec fn window_start(i: int, w: int) -> int {
    if i < w {
        0
    } else {
        i - w + 1
    }
}

/// Trailing-window average at index `i` for window width `w`.
pub open spec fn ma_at(s: Seq<i128>, i: int, w: int) -> int {
    let st = window_start(i, w);
    div_trunc(seq_sum(s.subrange(st, i + 1)), i + 1 - st)
}

/// A value bit pattern the series can take in: finite and inside the
/// fixed-point range.
pub open spec fn bits_ok(b: u64) -> bool {
    is_finite_bits(b) && scaled_mag_of(b) <= VALUE_LIMIT as int
}

/// Raw input that a series can be built from.
pub open spec fn input_ok(ts: Seq<u64>, bits: Seq<u64>) -> bool {
    &&& ts.len() == bits.len()
    &&& bits.len() >= 1
    &&& ts_sorted(ts)
    &&& (forall|i: int| 0 <= i < bits.len() ==> bits_ok(#[trigger] bits[i]))
}

/// The error that rejected raw input produces, by priority: different
/// lengths, then emptiness, then unordered timestamps, then the first
/// bad bit pattern, which is reported as non-finite or as out of range.
pub open spec fn input_error_is(ts: Seq<u64>, bits: Seq<u64>, e: TimeSeriesError) -> bool {
    &&& (e == TimeSeriesError::LengthMismatch <==> ts.len() != bits.len())
    &&& (e == TimeSeriesError::EmptySeries <==> ts.len() == bits.len() && bits.len() == 0)
    &&& (e == TimeSeriesError::UnsortedTimestamps <==> ts.len() == bits.len() && bits.len() >= 1
        && !ts_sorted(ts))
    &&& (e == TimeSeriesError::NonFiniteValue <==> ts.len() == bits.len() && bits.len() >= 1
        && ts_sorted(ts) && (exists|i: int|
        0 <= i < bits.len() && !is_finite_bits(#[trigger] bits[i]) && (forall|j: int|
            0 <= j < i ==> bits_ok(#[trigger] bits[j]))))
    &&& (e == TimeSeriesError::EncodingOverflow <==> ts.len() == bits.len() && bits.len() >= 1
        && ts_sorted(ts) && (exists|i: int|
        0 <= i < bits.len() && is_finite_bits(#[trigger] bits[i]) && scaled_mag_of(bits[i])
            > VALUE_LIMIT as int && (forall|j: int| 0 <= j < i ==> bits_ok(#[trigger] bits[j]))))
}

/// Sum of squared deviations from `mu`, as a mathematical integer.
pub open spec fn dev_sq_sum(s: Seq<i128>, mu: int) -> int
    decreases s.len(),
{
    if s.len() == 0 {
        0
    } else {
        dev_sq_sum(s.drop_last(), mu) + (s.last() - mu) * (s.last() - mu)
    }
}

/// Population variance: squared deviations from the mean, divided by
/// the number of points (not one less).
pub open spec fn variance_spec(s: Seq<i128>) -> int {
    dev_sq_sum(s, mean_spec(s)) / (s.len() as int)
}

/// Squared deviations are non-negative and bounded by `len * (2b)^2`
/// when the values and the centre are bounded by `b`.
pub proof fn lemma_dev_sq_sum_bound(s: Seq<i128>, mu: int, b: int)
    requires
        b >= 0,
        -b <= mu <= b,
        forall|i: int| 0 <= i < s.len() ==> -b <= #[trigger] s[i] <= b,
    ensures
        0 <= dev_sq_sum(s, mu) <= s.len() * (4 * b * b),
    decreases s.len(),
{
    if s.len() == 0 {
    } else {
        let t = s.drop_last();
        lemma_dev_sq_sum_bound(t, mu, b);
        let d = s.last() - mu;
        assert(0 <= d * d <= 4 * b * b) by (nonlinear_arith)
            requires
                -(2 * b) <= d <= 2 * b,
        ;
        assert(s.len() * (4 * b * b) == t.len() * (4 * b * b) + 4 * b * b) by (nonlinear_arith)
            requires
                s.len() == t.len() + 1,
        ;
    }
}

/// A sequence of one repeated value sums to the value times the length.
proof fn lemma_seq_sum_const(s: Seq<i128>, c: i128)
    requires
        forall|i: int| 0 <= i < s.len() ==> s[i] == c,
    ensures
        seq_sum(s) == s.len() * (c as int),
    decreases s.len(),
{
    if s.len() == 0 {
    } else {
        lemma_seq_sum_const(s.drop_last(), c);
        assert(s.len() * (c as int) == s.drop_last().len() * (c as int) + c) by (nonlinear_arith)
            requires
                s.len() == s.drop_last().len() + 1,
        ;
    }
}

/// Deviations of a constant sequence from the constant vanish.
proof fn lemma_dev_sq_sum_const(s: Seq<i128>, c: i128)
    requires
        forall|i: int| 0 <= i < s.len() ==> s[i] == c,
    ensures
        dev_sq_sum(s, c as int) == 0,
    decreases s.len(),
{
    if s.len() > 0 {
        lemma_dev_sq_sum_const(s.drop_last(), c);
        assert(s.last() == c);
        let d = s.last() - c as int;
        assert(d * d == 0) by (nonlinear_arith)
            requires
                d == 0,
        ;
    }
}

/// A non-empty series of one repeated value `c` has mean exactly `c`
/// and variance zero, so its standard deviation is zero.
pub proof fn lemma_constant_series_statistics(s: Seq<i128>, c: i128)
    requires
        s.len() >= 1,
        forall|i: int| 0 <= i < s.len() ==> s[i] == c,
    ensures
        mean_spec(s) == c as int,
        variance_spec(s) == 0,
        forall|r: int|
            0 <= r && #[trigger] (r * r) <= variance_spec(s) && variance_spec(s) < (r + 1) * (r
                + 1) ==> r == 0,
{
    let n = s.len() as int;
    lemma_seq_sum_const(s, c);
    lemma_div_multiples_vanish(c as int, n);
    if c >= 0 {
        assert(seq_sum(s) == n * (c as int)) by (nonlinear_arith)
            requires
                seq_sum(s) == s.len() * (c as int),
                n == s.len(),
        ;
        assert(div_trunc(seq_sum(s), n) == c as int);
    } else {
        assert(-seq_sum(s) == n * (-(c as int))) by (nonlinear_arith)
            requires
                seq_sum(s) == n * (c as int),
        ;
        lemma_div_multiples_vanish(-(c as int), n);
        assert(div_trunc(seq_sum(s), n) == c as int);
    }
    lemma_dev_sq_sum_const(s, c);
    assert(dev_sq_sum(s, mean_spec(s)) == 0);
    assert(0int / n == 0) by (nonlinear_arith)
        requires
            n >= 1,
    ;
    assert forall|r: int|
        0 <= r && #[trigger] (r * r) <= variance_spec(s) && variance_spec(s) < (r + 1) * (r
            + 1) implies r == 0 by {
        assert(r * r <= 0 && r >= 0 ==> r == 0) by (nonlinear_arith);
    }
}

/// The order the median sorts values in.
pub open spec fn vals_leq() -> spec_fn(i128, i128) -> bool {
    |x: i128, y: i128| x <= y
}

/// The values of a series rearranged into ascending order.
pub open spec fn sorted_vals(s: Seq<i128>) -> Seq<i128> {
    s.sort_by(vals_leq())
}

/// Median of a series: the middle of the sorted values, or for an even
/// count the average of the two middle values, rounded toward zero.
pub open spec fn median_spec(s: Seq<i128>) -> int {
    let t = sorted_vals(s);
    let m = s.len() as int / 2;
    if s.len() % 2 == 0 {
        div_trunc(t[m - 1] + t[m], 2)
    } else {
        t[m] as int
    }
}

pub proof fn lemma_vals_leq_total()
    ensures
        total_ordering(vals_leq()),
{
    let leq = vals_leq();
    assert forall|x: i128, y: i128| #[trigger] leq(x, y) || #[trigger] leq(y, x) by {
        assert(x <= y || y <= x);
    }
}

/// Selection sort into a fresh vector, ascending.
#[verifier::loop_isolation(false)]
fn sort_values(src: &Vec<i128>) -> (r: Vec<i128>)
    ensures
        r@.len() == src@.len(),
        r@.to_multiset() == src@.to_multiset(),
        sorted_by(r@, vals_leq()),
{
    broadcast use group_to_multiset_ensures;
    broadcast use group_multiset_axioms;

    let mut rest: Vec<i128> = Vec::new();
    let mut c: usize = 0;
    while c < src.len()
        invariant
            c <= src@.len(),
            rest@ =~= src@.subrange(0, c as int),
        decreases src@.len() - c,
    {
        rest.push(src[c]);
        c += 1;
    }
    proof {
        assert(rest@ =~= src@);
    }
    let mut out: Vec<i128> = Vec::new();
    while rest.len() > 0
        invariant
            out@.to_multiset().add(rest@.to_multiset()) =~= src@.to_multiset(),
            out@.len() + rest@.len() == src@.len(),
            sorted_by(out@, vals_leq()),
            forall|i: int, j: int|
                0 <= i < out@.len() && 0 <= j < rest@.len() ==> #[trigger] out@[i]
                    <= #[trigger] rest@[j],
        decreases rest@.len(),
    {
        let mut mi: usize = 0;
        let mut k: usize = 1;
        while k < rest.len()
            invariant
                mi < rest@.len(),
                k <= rest@.len(),
                forall|t: int| 0 <= t < k ==> rest@[mi as int] <= #[trigger] rest@[t],
            decreases rest@.len() - k,
        {
            if rest[k] < rest[mi] {
                mi = k;
            }
            k += 1;
        }
        let ghost old_rest = rest@;
        let ghost old_out = out@;
        let v = rest.remove(mi);
        out.push(v);
        proof {
            assert(rest@.to_multiset() =~= old_rest.to_multiset().remove(v));
            assert(out@.to_multiset() =~= old_out.to_multiset().insert(v));
            assert(old_rest.to_multiset().contains(v));
            assert(out@.to_multiset().add(rest@.to_multiset()) =~= src@.to_multiset());
            assert forall|i: int, j: int|
                0 <= i < out@.len() && 0 <= j < rest@.len() implies #[trigger] out@[i]
                <= #[trigger] rest@[j] by {
                if j < mi {
                    assert(rest@[j] == old_rest[j]);
                } else {
                    assert(rest@[j] == old_rest[j + 1]);
                }
                if i < out@.len() - 1 {
                    assert(out@[i] == old_out[i]);
                } else {
                    assert(out@[i] == v);
                }
            }
            assert forall|i: int, j: int| 0 <= i < j < out@.len() implies #[trigger] (vals_leq())(
                out@[i],
                out@[j],
            ) by {
                if j < out@.len() - 1 {
                    assert((vals_leq())(old_out[i], old_out[j]));
                } else {
                    assert(out@[j] == v);
                    assert(old_out[i] <= old_rest[mi as int]);
                }
            }
        }
    }
    out
}

/// One step of exponential smoothing with factor `alpha` (in
/// `ALPHA_SCALE` units): `prev + alpha * (v - prev) / ALPHA_SCALE`,
/// which is the recurrence `alpha * v + (1 - alpha) * prev` rounded
/// toward zero.
pub open spec fn ema_step(prev: int, v: int, alpha: int) -> int {
    prev + div_trunc(alpha * (v - prev), ALPHA_SCALE as int)
}

/// The exponentially smoothed value at index `i`, seeded with the first
/// value of the series.
pub open spec fn ema_at(s: Seq<i128>, alpha: int, i: int) -> int
    decreases i,
{
    if i <= 0 {
        s[0] as int
    } else {
        ema_step(ema_at(s, alpha, i - 1), s[i] as int, alpha)
    }
}

/// Forecast step between consecutive points: the gap of the first two
/// timestamps, or one for a single-point series.
pub open spec fn time_step_spec(ts: Seq<u64>) -> int {
    if ts.len() > 1 {
        ts[1] - ts[0]
    } else {
        1
    }
}

/// One exponential-smoothing step in executable form.
fn ema_advance(prev: i128, v: i128, alpha: u64) -> (r: i128)
    requires
        in_range(prev),
        in_range(v),
        alpha <= ALPHA_SCALE,
    ensures
        (r as int) == ema_step(prev as int, v as int, alpha as int),
        in_range(r),
        prev <= v ==> prev <= r <= v,
        v <= prev ==> v <= r <= prev,
{
    if v >= prev {
        let d: u128 = (v - prev) as u128;
        proof {
            lemma_mul_inequality(alpha as int, ALPHA_SCALE as int, d as int);
            assert((alpha as int) * (d as int) <= 0x100000000000000000000000000000000 - 1)
                by (nonlinear_arith)
                requires
                    (alpha as int) <= ALPHA_SCALE as int,
                    (d as int) <= 2 * (VALUE_LIMIT as int),
            ;
        }
        let num: u128 = (alpha as u128) * d;
        let t: u128 = num / (ALPHA_SCALE as u128);
        proof {
            lemma_div_is_ordered(num as int, (ALPHA_SCALE as int) * (d as int), ALPHA_SCALE as int);
            lemma_div_multiples_vanish(d as int, ALPHA_SCALE as int);
            assert((t as int) <= (d as int));
        }
        prev + (t as i128)
    } else {
        let d: u128 = (prev - v) as u128;
        proof {
            lemma_mul_inequality(alpha as int, ALPHA_SCALE as int, d as int);
            assert((alpha as int) * (d as int) <= 0x100000000000000000000000000000000 - 1)
                by (nonlinear_arith)
                requires
                    (alpha as int) <= ALPHA_SCALE as int,
                    (d as int) <= 2 * (VALUE_LIMIT as int),
            ;
        }
        let num: u128 = (alpha as u128) * d;
        let t: u128 = num / (ALPHA_SCALE as u128);
        proof {
            lemma_div_is_ordered(num as int, (ALPHA_SCALE as int) * (d as int), ALPHA_SCALE as int);
            lemma_div_multiples_vanish(d as int, ALPHA_SCALE as int);
            assert((t as int) <= (d as int));
            assert((alpha as int) * ((v as int) - (prev as int)) == -((alpha as int) * (
            d as int))) by (nonlinear_arith)
                requires
                    (d as int) == (prev as int) - (v as int),
            ;
        }
        prev - (t as i128)
    }
}

/// Copies a timestamp vector element by element.
fn copy_timestamps(src: &Vec<u64>) -> (r: Vec<u64>)
    ensures
        r@ == src@,
{
    let mut out: Vec<u64> = Vec::new();
    let mut i: usize = 0;
    while i < src.len()
        invariant
            i <= src@.len(),
            out@ =~= src@.subrange(0, i as int),
        decreases src@.len() - i,
    {
        out.push(src[i]);
        i += 1;
    }
    proof {
        assert(out@ =~= src@);
    }
    out
}

/// An ordered pair of equal-length sequences: Unix timestamps and the
/// fixed-point values observed at them.  Immutable once constructed;
/// every transform returns a new series.
#[derive(Debug, Clone)]
pub struct TimeSeries {
    timestamps: Vec<u64>,
    values: Vec<i128>,
}

impl TimeSeries {
    pub closed spec fn ts_seq(&self) -> Seq<u64> {
        self.timestamps@
    }

    pub closed spec fn val_seq(&self) -> Seq<i128> {
        self.values@
    }

    /// The invariant every constructed series satisfies.
    pub open spec fn wf(&self) -> bool {
        &&& self.ts_seq().len() == self.val_seq().len()
        &&& 1 <= self.val_seq().len() <= MAX_SERIES_LEN
        &&& all_in_range(self.val_seq())
        &&& ts_sorted(self.ts_seq())
    }

    /// Validates and takes ownership of a pair of parallel sequences.
    ///
    /// Rejects, in this order of priority: different lengths, an empty
    /// series, timestamps out of order, and values whose magnitude the
    /// fixed-point range cannot carry.
    #[verifier::loop_isolation(false)]
    pub fn new(timestamps: Vec<u64>, values: Vec<i128>) -> (r: Result<TimeSeries, TimeSeriesError>)
        requires
            timestamps@.len() <= MAX_SERIES_LEN,
        ensures
            r.is_ok() <==> {
                &&& timestamps@.len() == values@.len()
                &&& values@.len() >= 1
                &&& ts_sorted(timestamps@)
                &&& all_in_range(values@)
            },
            match r {
                Ok(ts) => ts.ts_seq() == timestamps@ && ts.val_seq() == values@ && ts.wf(),
                Err(e) => {
                    &&& (e == TimeSeriesError::LengthMismatch <==> timestamps@.len()
                        != values@.len())
                    &&& (e == TimeSeriesError::EmptySeries <==> timestamps@.len() == values@.len()
                        && values@.len() == 0)
                    &&& (e == TimeSeriesError::UnsortedTimestamps <==> timestamps@.len()
                        == values@.len() && values@.len() >= 1 && !ts_sorted(timestamps@))
                    &&& (e == TimeSeriesError::EncodingOverflow <==> timestamps@.len()
                        == values@.len() && values@.len() >= 1 && ts_sorted(timestamps@)
                        && !all_in_range(values@))
                },
            },
    {
        if timestamps.len() != values.len() {
            return Err(TimeSeriesError::LengthMismatch);
        }
        if values.len() == 0 {
            return Err(TimeSeriesError::EmptySeries);
        }
        let n = timestamps.len();
        let mut i: usize = 0;
        while i + 1 < n
            invariant
                n == timestamps@.len(),
                i < n,
                forall|j: int| 0 <= j < i ==> #[trigger] timestamps@[j] <= timestamps@[j + 1],
            decreases n - i,
        {
            if timestamps[i] > timestamps[i + 1] {
                return Err(TimeSeriesError::UnsortedTimestamps);
            }
            i += 1;
        }
        let mut k: usize = 0;
        while k < n
            invariant
                n == values@.len(),
                k <= n,
                forall|j: int| 0 <= j < k ==> in_range(#[trigger] values@[j]),
            decreases n - k,
        {
            let v = values[k];
            if v > VALUE_LIMIT || v < -VALUE_LIMIT {
                return Err(TimeSeriesError::EncodingOverflow);
            }
            k += 1;
        }
        Ok(TimeSeries { timestamps, values })
    }

    /// Builds a series from raw timestamps and the IEEE-754 bit
    /// patterns of its values, decoding each pattern to fixed point.
    ///
    /// Rejects, in this order: different lengths, an empty series,
    /// timestamps out of order, then the first bit pattern that is not
    /// finite or whose magnitude leaves the fixed-point range.
    #[verifier::loop_isolation(false)]
    pub fn from_bits(timestamps: &Vec<u64>, value_bits: &Vec<u64>) -> (r: Result<
        TimeSeries,
        TimeSeriesError,
    >)
        requires
            timestamps@.len() <= MAX_SERIES_LEN,
        ensures
            r.is_ok() <==> input_ok(timestamps@, value_bits@),
            match r {
                Ok(ts) => {
                    &&& ts.wf()
                    &&& ts.ts_seq() == timestamps@
                    &&& ts.val_seq().len() == value_bits@.len()
                    &&& forall|i: int|
                        0 <= i < value_bits@.len() ==> (#[trigger] ts.val_seq()[i] as int)
                            == fixed_of_bits(value_bits@[i])
                },
                Err(e) => input_error_is(timestamps@, value_bits@, e),
            },
    {
        if timestamps.len() != value_bits.len() {
            return Err(TimeSeriesError::LengthMismatch);
        }
        if value_bits.len() == 0 {
            return Err(TimeSeriesError::EmptySeries);
        }
        let n = timestamps.len();
        let mut i: usize = 0;
        while i + 1 < n
            invariant
                n == timestamps@.len(),
                i < n,
                forall|j: int| 0 <= j < i ==> #[trigger] timestamps@[j] <= timestamps@[j + 1],
            decreases n - i,
        {
            if timestamps[i] > timestamps[i + 1] {
                return Err(TimeSeriesError::UnsortedTimestamps);
            }
            i += 1;
        }
        let mut values: Vec<i128> = Vec::new();
        let mut k: usize = 0;
        while k < n
            invariant
                n == value_bits@.len(),
                k <= n,
                values@.len() == k,
                forall|j: int| 0 <= j < k ==> bits_ok(#[trigger] value_bits@[j]),
                forall|j: int|
                    0 <= j < k ==> (#[trigger] values@[j] as int) == fixed_of_bits(value_bits@[j])
                        && in_range(values@[j]),
            decreases n - k,
        {
            match fixed_from_bits(value_bits[k]) {
                Ok(v) => {
                    values.push(v);
                },
                Err(e) => {
                    return Err(e);
                },
            }
            k += 1;
        }
        Ok(TimeSeries { timestamps: copy_timestamps(timestamps), values })
    }

    /// Number of points in the series.
    pub fn len(&self) -> (r: usize)
        ensures
            r == self.val_seq().len(),
    {
        self.values.len()
    }

    /// Moving average with a trailing window of `window_size` points.
    ///
    /// The window shrinks near the start, so the result has exactly as
    /// many points, and the same timestamps, as the input.
    #[verifier::loop_isolation(false)]
    pub fn moving_average(&self, window_size: usize) -> (r: Result<TimeSeries, TimeSeriesError>)
        requires
            self.wf(),
        ensures
            r.is_ok() <==> window_size >= 1,
            match r {
                Ok(ma) => {
                    &&& ma.wf()
                    &&& ma.ts_seq() == self.ts_seq()
                    &&& ma.val_seq().len() == self.val_seq().len()
                    &&& forall|i: int|
                        0 <= i < self.val_seq().len() ==> #[trigger] ma.val_seq()[i] == ma_at(
                            self.val_seq(),
                            i,
                            window_size as int,
                        )
                },
                Err(e) => e == TimeSeriesError::InvalidParameter && window_size == 0,
            },
    {
        if window_size == 0 {
            return Err(TimeSeriesError::InvalidParameter);
        }
        let n = self.values.len();
        let mut out: Vec<i128> = Vec::new();
        let mut i: usize = 0;
        while i < n
            invariant
                out@.len() == i,
                i <= n,
                forall|k: int|
                    0 <= k < i ==> #[trigger] out@[k] == ma_at(
                        self.val_seq(),
                        k,
                        window_size as int,
                    ) && in_range(out@[k]),
            decreases n - i,
        {
            let start: usize = if i < window_size {
                0
            } else {
                i - window_size + 1
            };
            let ghost st = start as int;
            let mut wsum: i128 = 0;
            let mut j: usize = start;
            proof {
                assert(self.val_seq().subrange(st, st) =~= Seq::<i128>::empty());
            }
            while j <= i
                invariant
                    start <= j <= i + 1,
                    i < n,
                    (wsum as int) == seq_sum(self.val_seq().subrange(st, j as int)),
                    -((j - start) as int) * (VALUE_LIMIT as int) <= (wsum as int) <= ((j
                        - start) as int) * (VALUE_LIMIT as int),
                decreases i + 1 - j,
            {
                proof {
                    assert(self.val_seq().subrange(st, j + 1).drop_last() =~= self.val_seq()
                        .subrange(st, j as int));
                    assert(in_range(self.val_seq()[j as int]));
                    lemma_mul_inequality(
                        (j - start) as int + 1,
                        MAX_SERIES_LEN as int,
                        VALUE_LIMIT as int,
                    );
                    assert(((j - start) as int) * (VALUE_LIMIT as int) + (VALUE_LIMIT as int) == ((j
                        - start) as int + 1) * (VALUE_LIMIT as int)) by (nonlinear_arith);
                }
                wsum = wsum + self.values[j];
                j += 1;
            }
            let cnt: usize = i - start + 1;
            proof {
                lemma_div_trunc_bound(wsum as int, cnt as int, VALUE_LIMIT as int);
            }
            let avg = div_signed(wsum, cnt as u128);
            proof {
                assert(window_start(i as int, window_size as int) == st);
                assert((avg as int) == ma_at(self.val_seq(), i as int, window_size as int));
            }
            out.push(avg);
            i += 1;
        }
        let ts_copy = copy_timestamps(&self.timestamps);
        let result = TimeSeries { timestamps: ts_copy, values: out };
        proof {
            assert(result.wf());
        }
        Ok(result)
    }

    /// Population standard deviation of the values: the integer square
    /// root of the variance, characterized exactly by its bracketing
    /// squares.
    #[verifier::loop_isolation(false)]
    pub fn std_dev(&self) -> (r: u128)
        requires
            self.wf(),
        ensures
            (r as int) * (r as int) <= variance_spec(self.val_seq()),
            variance_spec(self.val_seq()) < ((r as int) + 1) * ((r as int) + 1),
            (r as int) <= 2 * (VALUE_LIMIT as int),
    {
        let mu = self.mean();
        let n = self.values.len();
        let ghost vb = 4 * (VALUE_LIMIT as int) * (VALUE_LIMIT as int);
        let mut hi: u128 = 0;
        let mut lo: u128 = 0;
        let mut i: usize = 0;
        proof {
            assert(self.val_seq().subrange(0, 0) =~= Seq::<i128>::empty());
        }
        while i < n
            invariant
                i <= n,
                wide_val(hi, lo) == dev_sq_sum(self.val_seq().subrange(0, i as int), mu as int),
                0 <= wide_val(hi, lo) <= (i as int) * vb,
                (hi as int) < 0x10000000000000000,
            decreases n - i,
        {
            let v = self.values[i];
            let d: u128 = if v >= mu {
                (v - mu) as u128
            } else {
                (mu - v) as u128
            };
            proof {
                assert(in_range(self.val_seq()[i as int]));
                assert((d as int) <= 2 * (VALUE_LIMIT as int));
            }
            let sq = square_wide(d);
            proof {
                assert((d as int) * (d as int) == ((v as int) - (mu as int)) * ((v as int) - (
                mu as int))) by (nonlinear_arith)
                    requires
                        (d as int) == (v as int) - (mu as int) || (d as int) == (mu as int) - (
                        v as int),
                ;
                assert((d as int) * (d as int) <= vb) by (nonlinear_arith)
                    requires
                        0 <= (d as int) <= 2 * (VALUE_LIMIT as int),
                        vb == 4 * (VALUE_LIMIT as int) * (VALUE_LIMIT as int),
                ;
                assert((sq.0 as int) < 0x10000000000000000) by (nonlinear_arith)
                    requires
                        (sq.0 as int) * 0x100000000000000000000000000000000 + (sq.1 as int) == (
                        d as int) * (d as int),
                        0 <= (d as int) * (d as int) <= 4 * (VALUE_LIMIT as int) * (
                        VALUE_LIMIT as int),
                        (sq.1 as int) >= 0,
                        (sq.0 as int) >= 0,
                ;
            }
            let sums = add_wide(hi, lo, sq.0, sq.1);
            proof {
                assert(self.val_seq().subrange(0, i + 1).drop_last() =~= self.val_seq().subrange(
                    0,
                    i as int,
                ));
                lemma_mul_inequality(i as int + 1, MAX_SERIES_LEN as int, vb);
                assert((i as int) * vb + vb == (i as int + 1) * vb) by (nonlinear_arith);
                assert((sums.0 as int) < 0x10000000000000000) by (nonlinear_arith)
                    requires
                        (sums.0 as int) * 0x100000000000000000000000000000000 + (sums.1 as int)
                            <= (MAX_SERIES_LEN as int) * (4 * (VALUE_LIMIT as int) * (
                        VALUE_LIMIT as int)),
                        (sums.1 as int) >= 0,
                        (sums.0 as int) >= 0,
                ;
            }
            hi = sums.0;
            lo = sums.1;
            i += 1;
        }
        proof {
            assert(self.val_seq().subrange(0, n as int) =~= self.val_seq());
            lemma_dev_sq_sum_bound(self.val_seq(), mu as int, VALUE_LIMIT as int);
        }
        let var = div_wide(hi, lo, n as u128);
        proof {
            let dss = dev_sq_sum(self.val_seq(), mu as int);
            lemma_mul_inequality(n as int, MAX_SERIES_LEN as int, vb);
            assert(dss <= (n as int) * vb);
            lemma_div_is_ordered(dss, (n as int) * vb, n as int);
            lemma_div_multiples_vanish(vb, n as int);
            assert(dss / (n as int) <= vb);
            lemma_div_pos_is_pos(dss, n as int);
            assert((var.0 as int) < 0x40000000000) by (nonlinear_arith)
                requires
                    (var.0 as int) * 0x100000000000000000000000000000000 + (var.1 as int) <= 4
                        * (VALUE_LIMIT as int) * (VALUE_LIMIT as int),
                    (var.1 as int) >= 0,
                    (var.0 as int) >= 0,
            ;
        }
        let r = isqrt_wide(var.0, var.1);
        proof {
            assert((r as int) <= 2 * (VALUE_LIMIT as int)) by (nonlinear_arith)
                requires
                    (r as int) * (r as int) <= 4 * (VALUE_LIMIT as int) * (VALUE_LIMIT as int),
                    (r as int) >= 0,
            ;
        }
        r
    }

    /// Median of the values: the middle of the sorted copy, or the
    /// truncated average of the two middle values for an even count.
    pub fn median(&self) -> (r: i128)
        requires
            self.wf(),
        ensures
            (r as int) == median_spec(self.val_seq()),
            in_range(r),
    {
        broadcast use group_to_multiset_ensures;
        broadcast use group_multiset_axioms;

        let sv = sort_values(&self.values);
        proof {
            lemma_vals_leq_total();
            self.val_seq().lemma_sort_by_ensures(vals_leq());
            lemma_sorted_unique(sv@, self.val_seq().sort_by(vals_leq()), vals_leq());
            assert(sv@ == sorted_vals(self.val_seq()));
            assert forall|i: int| 0 <= i < sv@.len() implies in_range(#[trigger] sv@[i]) by {
                assert(sv@.contains(sv@[i]));
                assert(sv@.to_multiset().contains(sv@[i]));
                assert(self.val_seq().contains(sv@[i]));
                let j = choose|j: int|
                    0 <= j < self.val_seq().len() && self.val_seq()[j] == sv@[i];
                assert(in_range(self.val_seq()[j]));
            }
        }
        let n = sv.len();
        let m = n / 2;
        if n % 2 == 0 {
            let a = sv[m - 1];
            let b = sv[m];
            let s: i128 = a + b;
            proof {
                lemma_div_trunc_bound(s as int, 2, VALUE_LIMIT as int);
            }
            div_signed(s, 2)
        } else {
            sv[m]
        }
    }

    /// Exponential moving average with smoothing factor `alpha`, given
    /// in `ALPHA_SCALE` units; a factor above one is rejected.
    ///
    /// The first output equals the first input value; afterwards each
    /// output is `alpha * value + (1 - alpha) * previous output`.
    #[verifier::loop_isolation(false)]
    pub fn exponential_moving_average(&self, alpha: u64) -> (r: Result<
        TimeSeries,
        TimeSeriesError,
    >)
        requires
            self.wf(),
        ensures
            r.is_ok() <==> alpha <= ALPHA_SCALE,
            match r {
                Ok(e) => {
                    &&& e.wf()
                    &&& e.ts_seq() == self.ts_seq()
                    &&& e.val_seq().len() == self.val_seq().len()
                    &&& forall|i: int|
                        0 <= i < self.val_seq().len() ==> (#[trigger] e.val_seq()[i] as int)
                            == ema_at(self.val_seq(), alpha as int, i)
                },
                Err(err) => err == TimeSeriesError::InvalidParameter && alpha > ALPHA_SCALE,
            },
    {
        if alpha > ALPHA_SCALE {
            return Err(TimeSeriesError::InvalidParameter);
        }
        let n = self.values.len();
        let mut out: Vec<i128> = Vec::new();
        let mut prev: i128 = self.values[0];
        out.push(prev);
        let mut i: usize = 1;
        while i < n
            invariant
                1 <= i <= n,
                out@.len() == i,
                prev == out@[i - 1],
                forall|k: int|
                    0 <= k < i ==> (#[trigger] out@[k] as int) == ema_at(
                        self.val_seq(),
                        alpha as int,
                        k,
                    ) && in_range(out@[k]),
            decreases n - i,
        {
            let nxt = ema_advance(prev, self.values[i], alpha);
            out.push(nxt);
            prev = nxt;
            i += 1;
        }
        Ok(TimeSeries { timestamps: copy_timestamps(&self.timestamps), values: out })
    }

    /// Exponential smoothing over the observed points, then a flat
    /// continuation: `horizon` forecast points all equal to the last
    /// smoothed value, with timestamps extended by the step inferred
    /// from the first two observed timestamps.
    #[verifier::loop_isolation(false)]
    pub fn simple_exponential_smoothing(&self, alpha: u64, horizon: usize) -> (r: Result<
        TimeSeries,
        TimeSeriesError,
    >)
        requires
            self.wf(),
            self.val_seq().len() + horizon <= MAX_SERIES_LEN,
            self.ts_seq().last() + (horizon as int) * time_step_spec(self.ts_seq()) <= u64::MAX,
        ensures
            r.is_ok() <==> alpha <= ALPHA_SCALE,
            match r {
                Ok(f) => {
                    let n = self.val_seq().len() as int;
                    &&& f.wf()
                    &&& f.val_seq().len() == n + horizon
                    &&& f.ts_seq().len() == n + horizon
                    &&& (forall|i: int| 0 <= i < n ==> #[trigger] f.ts_seq()[i] == self.ts_seq()[i])
                    &&& (forall|i: int|
                        0 <= i < n ==> (#[trigger] f.val_seq()[i] as int) == ema_at(
                            self.val_seq(),
                            alpha as int,
                            i,
                        ))
                    &&& (forall|i: int|
                        n <= i < n + horizon ==> (#[trigger] f.val_seq()[i] as int) == ema_at(
                            self.val_seq(),
                            alpha as int,
                            n - 1,
                        ))
                    &&& (forall|i: int|
                        n <= i < n + horizon ==> (#[trigger] f.ts_seq()[i] as int) == self.ts_seq()[n
                            - 1] + (i - n + 1) * time_step_spec(self.ts_seq()))
                },
                Err(err) => err == TimeSeriesError::InvalidParameter && alpha > ALPHA_SCALE,
            },
    {
        if alpha > ALPHA_SCALE {
            return Err(TimeSeriesError::InvalidParameter);
        }
        let n = self.values.len();
        let mut out: Vec<i128> = Vec::new();
        let mut prev: i128 = self.values[0];
        out.push(prev);
        let mut i: usize = 1;
        while i < n
            invariant
                1 <= i <= n,
                out@.len() == i,
                prev == out@[i - 1],
                forall|k: int|
                    0 <= k < i ==> (#[trigger] out@[k] as int) == ema_at(
                        self.val_seq(),
                        alpha as int,
                        k,
                    ) && in_range(out@[k]),
            decreases n - i,
        {
            let nxt = ema_advance(prev, self.values[i], alpha);
            out.push(nxt);
            prev = nxt;
            i += 1;
        }
        let mut h: usize = 0;
        while h < horizon
            invariant
                out@.len() == n + h,
                h <= horizon,
                prev == out@[n - 1],
                forall|k: int|
                    0 <= k < n ==> (#[trigger] out@[k] as int) == ema_at(
                        self.val_seq(),
                        alpha as int,
                        k,
                    ) && in_range(out@[k]),
                forall|k: int|
                    n <= k < n + h ==> (#[trigger] out@[k] as int) == ema_at(
                        self.val_seq(),
                        alpha as int,
                        n - 1,
                    ) && in_range(out@[k]),
            decreases horizon - h,
        {
            out.push(prev);
            h += 1;
        }
        let mut tvec = copy_timestamps(&self.timestamps);
        let last: u64 = self.timestamps[n - 1];
        let step: u64 = if n > 1 {
            self.timestamps[1] - self.timestamps[0]
        } else {
            1
        };
        let ghost stp = time_step_spec(self.ts_seq());
        proof {
            assert((step as int) == stp);
        }
        let mut j: usize = 0;
        while j < horizon
            invariant
                tvec@.len() == n + j,
                j <= horizon,
                forall|k: int| 0 <= k < n ==> #[trigger] tvec@[k] == self.ts_seq()[k],
                forall|k: int|
                    n <= k < n + j ==> (#[trigger] tvec@[k] as int) == (last as int) + (k - n + 1)
                        * stp,
            decreases horizon - j,
        {
            proof {
                lemma_mul_inequality(j as int + 1, horizon as int, stp);
                assert((j as int + 1) * stp >= 0) by (nonlinear_arith)
                    requires
                        stp >= 0,
                        j as int + 1 >= 0,
                ;
            }
            let next_ts: u64 = last + ((j + 1) as u64) * step;
            tvec.push(next_ts);
            j += 1;
        }
        let result = TimeSeries { timestamps: tvec, values: out };
        proof {
            assert forall|k: int| 0 <= k < result.ts_seq().len() - 1 implies #[trigger] result
                .ts_seq()[k] <= result.ts_seq()[k + 1] by {
                if k < n - 1 {
                    assert(self.ts_seq()[k] <= self.ts_seq()[k + 1]);
                } else if k >= n {
                    assert((result.ts_seq()[k] as int) == (last as int) + (k - n + 1) * stp);
                    assert((result.ts_seq()[k + 1] as int) == (last as int) + (k + 1 - n + 1)
                        * stp);
                    assert((k - n + 1) * stp <= (k + 1 - n + 1) * stp) by (nonlinear_arith)
                        requires
                            stp >= 0,
                            k - n + 1 <= k + 1 - n + 1,
                    ;
                } else {
                    assert((result.ts_seq()[n as int] as int) == (last as int) + 1 * stp);
                    assert(1 * stp >= 0) by (nonlinear_arith)
                        requires
                            stp >= 0,
                    ;
                }
            }
            assert(result.wf());
        }
        Ok(result)
    }

    /// A copy of the timestamps.
    pub fn timestamps(&self) -> (r: Vec<u64>)
        ensures
            r@ == self.ts_seq(),
    {
        copy_timestamps(&self.timestamps)
    }

    /// A copy of the values.
    pub fn values(&self) -> (r: Vec<i128>)
        ensures
            r@ == self.val_seq(),
    {
        let mut out: Vec<i128> = Vec::new();
        let mut i: usize = 0;
        while i < self.values.len()
            invariant
                i <= self.values@.len(),
                out@ =~= self.values@.subrange(0, i as int),
            decreases self.values@.len() - i,
        {
            out.push(self.values[i]);
            i += 1;
        }
        proof {
            assert(out@ =~= self.values@);
        }
        out
    }

    /// The timestamp at an index.
    pub fn timestamp_at(&self, i: usize) -> (r: u64)
        requires
            i < self.ts_seq().len(),
        ensures
            r == self.ts_seq()[i as int],
    {
        self.timestamps[i]
    }

    /// The value at an index.
    pub fn value_at(&self, i: usize) -> (r: i128)
        requires
            i < self.val_seq().len(),
        ensures
            r == self.val_seq()[i as int],
    {
        self.values[i]
    }

    /// Arithmetic mean of the values, rounded toward zero.
    #[verifier::loop_isolation(false)]
    pub fn mean(&self) -> (r: i128)
        requires
            self.wf(),
        ensures
            (r as int) == mean_spec(self.val_seq()),
            in_range(r),
    {
        let n = self.values.len();
        let mut sum: i128 = 0;
        let mut i: usize = 0;
        proof {
            assert(self.val_seq().subrange(0, 0) =~= Seq::<i128>::empty());
        }
        while i < n
            invariant
                self.wf(),
                n == self.val_seq().len(),
                i <= n,
                (sum as int) == seq_sum(self.val_seq().subrange(0, i as int)),
                -(i as int) * (VALUE_LIMIT as int) <= (sum as int) <= (i as int) * (
                VALUE_LIMIT as int),
            decreases n - i,
        {
            proof {
                assert(self.val_seq().subrange(0, i + 1).drop_last() =~= self.val_seq().subrange(
                    0,
                    i as int,
                ));
                assert(in_range(self.val_seq()[i as int]));
                lemma_mul_inequality(i as int + 1, MAX_SERIES_LEN as int, VALUE_LIMIT as int);
                assert((i as int) * (VALUE_LIMIT as int) + (VALUE_LIMIT as int) == (i as int + 1) * (
                VALUE_LIMIT as int)) by (nonlinear_arith);
            }
            sum = sum + self.values[i];
            i += 1;
        }
        proof {
            assert(self.val_seq().subrange(0, n as int) =~= self.val_seq());
            lemma_mul_inequality(n as int, MAX_SERIES_LEN as int, VALUE_LIMIT as int);
            lemma_div_trunc_bound(sum as int, n as int, VALUE_LIMIT as int);
            assert(-(n as int) * (VALUE_LIMIT as int) <= (sum as int) <= (n as int) * (
            VALUE_LIMIT as int));
        }
        div_signed(sum, n as u128)
    }
}

} // verus!
