//! Normalized brightness levels and the actuator's device range.
//!
//! A brightness level is a fixed-point number: an integer count of
//! thousandths of full scale, so `0` is fully dark and [`SCALE`] is fully
//! bright. The `Backlight` type records the raw device range reported by
//! the hardware and converts between raw device values and normalized
//! levels at that boundary; everything else in the crate works on
//! normalized levels only.

use vstd::prelude::*;

verus! {

/// Full scale of the fixed-point brightness representation: levels are
/// thousandths, so a level of `SCALE` means maximum brightness.
pub const SCALE: u32 = 1000;

/// A valid brightness level lies in `[0, SCALE]`.
pub open spec fn is_level(v: u32) -> bool {
    v <= SCALE
}

/// The actuator's raw device range, reported by the hardware at startup.
/// Raw backlight values live in `[min, max]`; the invariant `min < max`
/// keeps the range non-degenerate so normalization is well defined.
pub struct Backlight {
    pub min: i32,
    pub max: i32,
}

impl Backlight {
    /// The device range is non-degenerate.
    pub open spec fn wf(self) -> bool {
        self.min < self.max
    }

    /// The normalized level for a raw device reading: the reading's
    /// position within `[min, max]`, in thousandths, clamped to the
    /// valid range.
    pub open spec fn level_of_raw(self, raw: int) -> int {
        if raw <= self.min {
            0
        } else if raw >= self.max {
            SCALE as int
        } else {
            ((raw - self.min) * (SCALE as int)) / (self.max - self.min)
        }
    }

    /// The raw device value for a normalized level: `min` plus the
    /// level's share of the device range, rounded down.
    pub open spec fn raw_of_level(self, level: int) -> int {
        self.min + (level * (self.max - self.min)) / (SCALE as int)
    }

    /// Writing a level and reading it back round-trips losslessly
    /// enough for repeated sets of one target to converge: the reading
    /// never overshoots the level, undershoots by at most the device's
    /// quantization step, and once the device range spans at least
    /// `SCALE` raw units the loss is at most one thousandth.
    pub proof fn lemma_level_round_trip(self, level: int)
        requires
            self.wf(),
            0 <= level <= SCALE as int,
        ensures
            self.level_of_raw(self.raw_of_level(level)) <= level,
            (level - self.level_of_raw(self.raw_of_level(level))) * (self.max - self.min) <= 998
                + (self.max - self.min),
            self.max - self.min >= SCALE as int ==> level - self.level_of_raw(
                self.raw_of_level(level),
            ) <= 1,
    {
        let m = self.max - self.min;
        let q = (level * m) / (SCALE as int);
        vstd::arithmetic::div_mod::lemma_fundamental_div_mod(level * m, SCALE as int);
        vstd::arithmetic::div_mod::lemma_mod_division_less_than_divisor(level * m, SCALE as int);
        let rem = (level * m) % (SCALE as int);
        assert(level * m == 1000 * q + rem);
        assert(level * m >= 0) by (nonlinear_arith)
            requires
                level >= 0,
                m > 0,
        ;
        assert(q >= 0) by (nonlinear_arith)
            requires
                1000 * q + rem >= 0,
                0 <= rem < 1000,
        ;
        assert(level * m <= 1000 * m) by (nonlinear_arith)
            requires
                level <= 1000,
                m > 0,
        ;
        assert(q <= m) by (nonlinear_arith)
            requires
                1000 * q + rem == level * m,
                level * m <= 1000 * m,
                0 <= rem,
        ;
        let raw = self.min + q;
        assert(raw == self.raw_of_level(level));
        if q == 0 {
            // the write lands on the bottom of the range and reads as 0
            assert(level * m < 1000);
            assert((level - 0) * m <= 998 + m) by (nonlinear_arith)
                requires
                    level * m < 1000,
                    m > 0,
            ;
            assert(m >= 1000 ==> level <= 1) by (nonlinear_arith)
                requires
                    level * m < 1000,
                    level >= 0,
            ;
        } else if q == m {
            // only a full-scale level fills the whole range
            assert(level >= 1000) by (nonlinear_arith)
                requires
                    1000 * q + rem == level * m,
                    q == m,
                    0 <= rem,
                    m > 0,
                    level <= 1000,
            ;
            assert(self.level_of_raw(raw) == SCALE as int);
            assert(level == 1000);
            assert((level - 1000) * m <= 998 + m) by (nonlinear_arith)
                requires
                    level == 1000,
                    m > 0,
            ;
        } else {
            // interior: the read is the floored inverse of the floored write
            assert(self.min < raw < self.max);
            let g = (q * (SCALE as int)) / m;
            assert(self.level_of_raw(raw) == g);
            vstd::arithmetic::div_mod::lemma_fundamental_div_mod(q * 1000, m);
            vstd::arithmetic::div_mod::lemma_mod_division_less_than_divisor(q * 1000, m);
            let rem2 = (q * 1000) % m;
            assert(q * 1000 == m * g + rem2);
            assert(g <= level) by (nonlinear_arith)
                requires
                    m * g + rem2 == q * 1000,
                    1000 * q + rem == level * m,
                    0 <= rem2,
                    0 <= rem,
                    m > 0,
                    level >= 0,
            ;
            assert((level - g) * m <= 998 + m) by (nonlinear_arith)
                requires
                    m * g + rem2 == q * 1000,
                    1000 * q + rem == level * m,
                    rem2 <= m - 1,
                    rem <= 999,
                    m > 0,
            ;
            if m >= 1000 {
                assert(level - g <= 1) by (nonlinear_arith)
                    requires
                        (level - g) * m <= 998 + m,
                        m >= 1000,
                ;
            }
        }
    }

    /// Records a device range. Succeeds exactly when the range is
    /// non-degenerate.
    pub fn new(min: i32, max: i32) -> (r: Option<Backlight>)
        ensures
            min < max ==> r == Some(Backlight { min, max }),
            min >= max ==> r is None,
    {
        if min < max {
            Some(Backlight { min, max })
        } else {
            None
        }
    }

    /// Normalizes a raw device reading into a brightness level.
    pub fn get(&self, raw: i32) -> (r: u32)
        requires
            self.wf(),
        ensures
            r == self.level_of_raw(raw as int),
            is_level(r),
    {
        if raw <= self.min {
            0
        } else if raw >= self.max {
            SCALE
        } else {
            let off: u64 = (raw as i64 - self.min as i64) as u64;
            proof {
                assert((raw - self.min) * (SCALE as int) <= 0xFFFF_FFFFu64 * (SCALE as int))
                    by (nonlinear_arith)
                    requires
                        0 <= raw - self.min <= 0xFFFF_FFFFu64,
                ;
            }
            let num: u64 = off * (SCALE as u64);
            let den: u64 = (self.max as i64 - self.min as i64) as u64;
            let q: u64 = num / den;
            proof {
                assert((raw - self.min) * (SCALE as int) < (self.max - self.min) * (SCALE as int))
                    by (nonlinear_arith)
                    requires
                        self.min < raw < self.max,
                ;
                assert(((raw - self.min) * (SCALE as int)) / (self.max - self.min) < SCALE as int)
                    by (nonlinear_arith)
                    requires
                        (raw - self.min) * (SCALE as int) < (self.max - self.min) * (SCALE as int),
                        self.max - self.min > 0,
                ;
                assert(((raw - self.min) * (SCALE as int)) / (self.max - self.min) >= 0)
                    by (nonlinear_arith)
                    requires
                        raw - self.min >= 0,
                        self.max - self.min > 0,
                ;
            }
            q as u32
        }
    }

    /// Denormalizes a brightness level into the raw device value to
    /// write; the result always lies within the device range.
    pub fn set(&self, level: u32) -> (r: i32)
        requires
            self.wf(),
            is_level(level),
        ensures
            r == self.raw_of_level(level as int),
            self.min <= r <= self.max,
    {
        let span: u64 = (self.max as i64 - self.min as i64) as u64;
        proof {
            assert((level as int) * (span as int) <= (SCALE as int) * 0xFFFF_FFFFu64)
                by (nonlinear_arith)
                requires
                    level <= SCALE,
                    0 <= span <= 0xFFFF_FFFFu64,
            ;
            assert((level as int) * (self.max - self.min) <= (SCALE as int) * (self.max - self.min))
                by (nonlinear_arith)
                requires
                    level <= SCALE,
                    self.max - self.min > 0,
            ;
            assert(((level as int) * (self.max - self.min)) / (SCALE as int) <= self.max - self.min)
                by (nonlinear_arith)
                requires
                    (level as int) * (self.max - self.min) <= (SCALE as int) * (self.max - self.min),
            ;
            assert(((level as int) * (self.max - self.min)) / (SCALE as int) >= 0)
                by (nonlinear_arith)
                requires
                    level >= 0,
                    self.max - self.min > 0,
            ;
        }
        let q: u64 = (level as u64 * span) / (SCALE as u64);
        let r64: i64 = self.min as i64 + q as i64;
        r64 as i32
    }
}

} // verus!
