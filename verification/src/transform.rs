//! The illuminance-to-brightness transform.
//!
//! A breakpoint table is an ordered sequence of strictly increasing
//! illuminance thresholds, fixed at startup. With `last = len - 1` it
//! defines `last` output buckets of width `SCALE / last` thousandths each;
//! a sample below the first threshold maps to minimum brightness, a sample
//! at or above the last threshold to maximum brightness, and anything in
//! between is interpolated linearly within its bucket. The resulting map
//! is monotone in the sample and lands on the bucket boundary
//! `r * SCALE / last` exactly at each threshold.

use vstd::prelude::*;
use crate::brightness::SCALE;
use vstd::arithmetic::div_mod::lemma_div_is_ordered;
use vstd::arithmetic::div_mod::lemma_div_denominator;
use vstd::arithmetic::div_mod::lemma_div_multiples_vanish;
use vstd::arithmetic::mul::lemma_mul_is_commutative;

verus! {

/// Thresholds must rise strictly, or bucket lookup would be ill defined.
pub open spec fn strictly_increasing(t: Seq<i32>) -> bool {
    forall|i: int, j: int| 0 <= i < j < t.len() ==> t[i] < t[j]
}

/// The index of the first threshold strictly above the sample, scanning
/// from position `i`; the table's length when no threshold is above.
pub open spec fn bucket_from(t: Seq<i32>, sample: int, i: int) -> int
    decreases t.len() - i,
{
    if i < 0 || i >= t.len() {
        t.len() as int
    } else if sample < t[i] {
        i
    } else {
        bucket_from(t, sample, i + 1)
    }
}

/// The index of the first threshold strictly above the sample.
pub open spec fn bucket(t: Seq<i32>, sample: int) -> int {
    bucket_from(t, sample, 0)
}

/// The transform's value in thousandths: `0` below the table, full scale
/// at or above it, and otherwise the sample's position within its bucket,
/// scaled by the bucket width and rounded down.
pub open spec fn to_brightness(t: Seq<i32>, sample: int) -> int {
    let last = t.len() - 1;
    let r = bucket(t, sample);
    if r == 0 {
        0
    } else if r > last {
        SCALE as int
    } else {
        let d = t[r] - t[r - 1];
        (((r - 1) * d + (sample - t[r - 1])) * (SCALE as int)) / (last * d)
    }
}

/// What the bucket index means: every threshold before it is at or below
/// the sample, and the threshold at it (if any) is above.
proof fn lemma_bucket_from_props(t: Seq<i32>, sample: int, i: int)
    requires
        0 <= i <= t.len(),
    ensures
        i <= bucket_from(t, sample, i) <= t.len(),
        bucket_from(t, sample, i) < t.len() ==> sample < t[bucket_from(t, sample, i)],
        forall|j: int| i <= j < bucket_from(t, sample, i) ==> sample >= t[j],
    decreases t.len() - i,
{
    if i < t.len() && sample >= t[i] {
        lemma_bucket_from_props(t, sample, i + 1);
    }
}

/// The bucket index lies in `[0, len]`, thresholds before it are at or
/// below the sample, and the threshold at it (if any) is above.
pub proof fn lemma_bucket_props(t: Seq<i32>, sample: int)
    ensures
        0 <= bucket(t, sample) <= t.len(),
        bucket(t, sample) < t.len() ==> sample < t[bucket(t, sample)],
        forall|j: int| 0 <= j < bucket(t, sample) ==> sample >= t[j],
{
    lemma_bucket_from_props(t, sample, 0);
}

/// A larger sample never falls into an earlier bucket.
proof fn lemma_bucket_mono(t: Seq<i32>, s1: int, s2: int)
    requires
        s1 <= s2,
    ensures
        bucket(t, s1) <= bucket(t, s2),
{
    lemma_bucket_props(t, s1);
    lemma_bucket_props(t, s2);
    let b1 = bucket(t, s1);
    let b2 = bucket(t, s2);
    if b1 > b2 {
        assert(s2 < t[b2]);
        assert(s1 >= t[b2]);
    }
}

/// Cancels a common positive factor under a floored division:
/// `(a * d) / (b * d) == a / b`.
proof fn lemma_div_cancel_factor(a: int, b: int, d: int)
    requires
        a >= 0,
        b > 0,
        d > 0,
    ensures
        (a * d) / (b * d) == a / b,
{
    lemma_div_denominator(a * d, d, b);
    assert((a * d) / d == a) by {
        lemma_mul_is_commutative(a, d);
        lemma_div_multiples_vanish(a, d);
    }
    lemma_mul_is_commutative(b, d);
    assert(a * d >= 0) by (nonlinear_arith)
        requires
            a >= 0,
            d > 0,
    ;
}

/// Inside bucket `r` the interpolated value lies between the scaled
/// bucket boundaries `(r-1) * SCALE / last` and `r * SCALE / last`.
proof fn lemma_interp_bounds(t: Seq<i32>, sample: int, r: int)
    requires
        strictly_increasing(t),
        t.len() >= 2,
        1 <= r <= t.len() - 1,
        r == bucket(t, sample),
    ensures
        ((r - 1) * (SCALE as int)) / (t.len() - 1) <= to_brightness(t, sample),
        to_brightness(t, sample) <= (r * (SCALE as int)) / (t.len() - 1),
{
    let last = t.len() - 1;
    let d = t[r] - t[r - 1];
    lemma_bucket_props(t, sample);
    assert(t[r - 1] <= sample < t[r]);
    assert(d > 0);
    let off = sample - t[r - 1];
    let num = ((r - 1) * d + off) * (SCALE as int);
    assert(num >= (r - 1) * d * (SCALE as int)) by (nonlinear_arith)
        requires
            off >= 0,
            SCALE as int > 0,
            num == ((r - 1) * d + off) * (SCALE as int),
    ;
    assert(num <= r * d * (SCALE as int)) by (nonlinear_arith)
        requires
            off < d,
            r >= 1,
            d > 0,
            SCALE as int > 0,
            num == ((r - 1) * d + off) * (SCALE as int),
    ;
    assert((r - 1) * d * (SCALE as int) >= 0) by (nonlinear_arith)
        requires
            r >= 1,
            d > 0,
    ;
    assert(last * d > 0) by (nonlinear_arith)
        requires
            last >= 1,
            d > 0,
    ;
    lemma_div_is_ordered((r - 1) * d * (SCALE as int), num, last * d);
    lemma_div_is_ordered(num, r * d * (SCALE as int), last * d);
    assert((r - 1) * d * (SCALE as int) == ((r - 1) * (SCALE as int)) * d) by (nonlinear_arith);
    assert(r * d * (SCALE as int) == (r * (SCALE as int)) * d) by (nonlinear_arith);
    assert((r - 1) * (SCALE as int) >= 0) by (nonlinear_arith)
        requires
            r >= 1,
    ;
    assert(r * (SCALE as int) >= 0) by (nonlinear_arith)
        requires
            r >= 1,
    ;
    lemma_div_cancel_factor((r - 1) * (SCALE as int), last, d);
    lemma_div_cancel_factor(r * (SCALE as int), last, d);
}

/// The transform's output always lies in `[0, SCALE]`.
pub proof fn lemma_to_brightness_range(t: Seq<i32>, sample: int)
    requires
        strictly_increasing(t),
        t.len() >= 2,
    ensures
        0 <= to_brightness(t, sample) <= SCALE as int,
{
    let last = t.len() - 1;
    let r = bucket(t, sample);
    lemma_bucket_props(t, sample);
    if 1 <= r <= last {
        lemma_interp_bounds(t, sample, r);
        assert(((r - 1) * (SCALE as int)) / last >= 0) by {
            assert((r - 1) * (SCALE as int) >= 0) by (nonlinear_arith)
                requires
                    r >= 1,
            ;
            lemma_div_is_ordered(0, (r - 1) * (SCALE as int), last);
        }
        assert((r * (SCALE as int)) / last <= SCALE as int) by {
            assert(r * (SCALE as int) <= last * (SCALE as int)) by (nonlinear_arith)
                requires
                    r <= last,
                    SCALE as int > 0,
            ;
            lemma_div_is_ordered(r * (SCALE as int), last * (SCALE as int), last);
            lemma_mul_is_commutative(last, SCALE as int);
            lemma_div_multiples_vanish(SCALE as int, last);
        }
    }
}

/// The transform is monotone: a brighter environment never asks for a
/// darker backlight.
pub proof fn lemma_to_brightness_mono(t: Seq<i32>, s1: int, s2: int)
    requires
        strictly_increasing(t),
        t.len() >= 2,
        s1 <= s2,
    ensures
        to_brightness(t, s1) <= to_brightness(t, s2),
{
    let last = t.len() - 1;
    let b1 = bucket(t, s1);
    let b2 = bucket(t, s2);
    lemma_bucket_mono(t, s1, s2);
    lemma_bucket_props(t, s1);
    lemma_bucket_props(t, s2);
    lemma_to_brightness_range(t, s1);
    lemma_to_brightness_range(t, s2);
    if b1 == 0 || b2 > last {
        // extremes are covered by the range bounds
    } else if b1 == b2 {
        let r = b1;
        let d = t[r] - t[r - 1];
        assert(d > 0);
        let num1 = ((r - 1) * d + (s1 - t[r - 1])) * (SCALE as int);
        let num2 = ((r - 1) * d + (s2 - t[r - 1])) * (SCALE as int);
        assert(num1 <= num2) by (nonlinear_arith)
            requires
                s1 <= s2,
                SCALE as int > 0,
                num1 == ((r - 1) * d + (s1 - t[r - 1])) * (SCALE as int),
                num2 == ((r - 1) * d + (s2 - t[r - 1])) * (SCALE as int),
        ;
        assert(last * d > 0) by (nonlinear_arith)
            requires
                last >= 1,
                d > 0,
        ;
        lemma_div_is_ordered(num1, num2, last * d);
    } else {
        // distinct interior buckets: chain through the bucket boundaries
        lemma_interp_bounds(t, s1, b1);
        lemma_interp_bounds(t, s2, b2);
        assert(b1 * (SCALE as int) <= (b2 - 1) * (SCALE as int)) by (nonlinear_arith)
            requires
                b1 <= b2 - 1,
                SCALE as int > 0,
        ;
        lemma_div_is_ordered(b1 * (SCALE as int), (b2 - 1) * (SCALE as int), last);
    }
}

/// Below the whole table the transform is exactly `0`; at or above its
/// top threshold it is exactly full scale.
pub proof fn lemma_to_brightness_extremes(t: Seq<i32>, sample: int)
    requires
        strictly_increasing(t),
        t.len() >= 2,
    ensures
        sample < t[0] ==> to_brightness(t, sample) == 0,
        sample >= t[t.len() - 1] ==> to_brightness(t, sample) == SCALE as int,
{
    lemma_bucket_props(t, sample);
    if sample >= t[t.len() - 1] {
        let b = bucket(t, sample);
        if b < t.len() {
            assert(t[b] <= t[t.len() - 1]);
        }
    }
}

/// At a threshold the transform lands exactly on its bucket boundary.
pub proof fn lemma_to_brightness_at_threshold(t: Seq<i32>, q: int)
    requires
        strictly_increasing(t),
        t.len() >= 2,
        0 <= q < t.len(),
    ensures
        to_brightness(t, t[q] as int) == (q * (SCALE as int)) / (t.len() - 1),
{
    let last = t.len() - 1;
    let sample = t[q] as int;
    let b = bucket(t, sample);
    lemma_bucket_props(t, sample);
    if q == last {
        lemma_to_brightness_extremes(t, sample);
        lemma_mul_is_commutative(last, SCALE as int);
        lemma_div_multiples_vanish(SCALE as int, last);
    } else {
        assert(b == q + 1) by {
            assert(sample < t[q + 1]);
            if b <= q {
                assert(sample >= t[b] || b == q);
            }
            if b > q + 1 {
                assert(sample >= t[q + 1]);
            }
        }
        let d = t[b] - t[b - 1];
        assert(to_brightness(t, sample) == (q * d * (SCALE as int)) / (last * d)) by (nonlinear_arith)
            requires
                to_brightness(t, sample) == (((b - 1) * d + (sample - t[b - 1])) * (SCALE as int)) / (last * d),
                b == q + 1,
                sample == t[b - 1],
        ;
        assert(q * d * (SCALE as int) == (q * (SCALE as int)) * d) by (nonlinear_arith);
        assert(q * (SCALE as int) >= 0) by (nonlinear_arith)
            requires
                q >= 0,
        ;
        lemma_div_cancel_factor(q * (SCALE as int), last, d);
    }
}

/// The illuminance-to-brightness transform: a validated breakpoint table.
pub struct Transform {
    pub i2b: Vec<i32>,
}

impl Transform {
    /// The table is long enough to define at least one bucket and its
    /// thresholds rise strictly.
    pub open spec fn wf(self) -> bool {
        self.i2b@.len() >= 2 && strictly_increasing(self.i2b@)
    }

    /// Validates a breakpoint table. Succeeds exactly when the table has
    /// at least two thresholds and they are strictly increasing.
    pub fn new(i2b: Vec<i32>) -> (r: Option<Transform>)
        ensures
            (i2b@.len() >= 2 && strictly_increasing(i2b@)) ==> r == Some(Transform { i2b }),
            !(i2b@.len() >= 2 && strictly_increasing(i2b@)) ==> r is None,
    {
        if i2b.len() < 2 {
            return None;
        }
        let n = i2b.len();
        let mut k: usize = 1;
        while k < n
            invariant
                1 <= k <= n,
                n == i2b@.len(),
                forall|i: int, j: int| 0 <= i < j < k ==> i2b@[i] < i2b@[j],
            decreases n - k,
        {
            if i2b[k - 1] >= i2b[k] {
                proof {
                    assert(!strictly_increasing(i2b@));
                }
                return None;
            }
            proof {
                assert forall|i: int, j: int| 0 <= i < j < k + 1 implies i2b@[i] < i2b@[j] by {
                    if j == k {
                        assert(i2b@[i] <= i2b@[k - 1]);
                    }
                }
            }
            k += 1;
        }
        Some(Transform { i2b })
    }

    /// The default breakpoint table written into a fresh configuration:
    /// six thresholds spanning darkness to direct light, defining five
    /// equal output buckets.
    pub fn default_table() -> (r: Vec<i32>)
        ensures
            r@ =~= seq![-5i32, 20i32, 300i32, 700i32, 1100i32, 7100i32],
            r@.len() >= 2,
            strictly_increasing(r@),
    {
        let mut v: Vec<i32> = Vec::new();
        v.push(-5);
        v.push(20);
        v.push(300);
        v.push(700);
        v.push(1100);
        v.push(7100);
        proof {
            assert(strictly_increasing(v@)) by {
                assert(forall|i: int, j: int| 0 <= i < j < v@.len() ==> v@[i] < v@[j]) by {
                    assert(v@[0] == -5 && v@[1] == 20 && v@[2] == 300 && v@[3] == 700 && v@[4]
                        == 1100 && v@[5] == 7100);
                }
            }
        }
        v
    }

    /// Maps a raw illuminance sample to a brightness level in
    /// thousandths, per the piecewise-linear ladder of the table.
    pub fn to_backlight(&self, value: i32) -> (r: u32)
        requires
            self.wf(),
        ensures
            r == to_brightness(self.i2b@, value as int),
            r <= SCALE,
    {
        let t = &self.i2b;
        let n = t.len();
        let last = n - 1;
        let mut r: usize = 0;
        while r < n && t[r] <= value
            invariant
                0 <= r <= n,
                n == t@.len(),
                forall|j: int| 0 <= j < r ==> value >= t@[j],
            decreases n - r,
        {
            r += 1;
        }
        proof {
            lemma_bucket_props(t@, value as int);
            let b = bucket(t@, value as int);
            if b < r {
                assert(value >= t@[b]);
            }
            if b > r {
                assert(r < t@.len());
                assert((value as int) >= t@[r as int]);
            }
            assert(r == bucket(t@, value as int));
            lemma_to_brightness_range(t@, value as int);
        }
        if r == 0 {
            0
        } else if r > last {
            SCALE
        } else {
            let d: u64 = (t[r] as i64 - t[r - 1] as i64) as u64;
            let off: u64 = (value as i64 - t[r - 1] as i64) as u64;
            let rm1: u64 = (r - 1) as u64;
            proof {
                assert(rm1 as int * (d as int) <= 0xFFFF_FFFF_FFFF_FFFFu64 * 0xFFFF_FFFFu64)
                    by (nonlinear_arith)
                    requires
                        0 <= rm1 as int <= 0xFFFF_FFFF_FFFF_FFFFu64,
                        0 <= d as int <= 0xFFFF_FFFFu64,
                ;
                assert(last as int * (d as int) <= 0xFFFF_FFFF_FFFF_FFFFu64 * 0xFFFF_FFFFu64)
                    by (nonlinear_arith)
                    requires
                        0 <= last as int <= 0xFFFF_FFFF_FFFF_FFFFu64,
                        0 <= d as int <= 0xFFFF_FFFFu64,
                ;
                assert(last as int * (d as int) > 0) by (nonlinear_arith)
                    requires
                        last as int >= 1,
                        d as int > 0,
                ;
            }
            let num128: u128 = (rm1 as u128 * d as u128 + off as u128) * (SCALE as u128);
            let den128: u128 = (last as u128) * (d as u128);
            let q: u128 = num128 / den128;
            proof {
                let di = self.i2b@[r as int] - self.i2b@[r as int - 1];
                let numi = ((r as int - 1) * di + (value as int - self.i2b@[r as int - 1])) * (SCALE as int);
                assert(num128 as int == numi) by (nonlinear_arith)
                    requires
                        rm1 as int == r as int - 1,
                        d as int == di,
                        off as int == value as int - self.i2b@[r as int - 1],
                        num128 as int == (rm1 as int * (d as int) + off as int) * (SCALE as int),
                        numi == ((r as int - 1) * di + (value as int - self.i2b@[r as int - 1])) * (SCALE as int),
                ;
                assert(q as int == to_brightness(t@, value as int));
                assert(q <= SCALE);
            }
            q as u32
        }
    }
}

} // verus!

