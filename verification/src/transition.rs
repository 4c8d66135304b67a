//! The smoothing transition engine.
//!
//! A transition carries the backlight from a start level to an end level
//! through a bounded sequence of intermediate values shaped by the
//! logistic easing curve. `set` plans a transition: when the two levels
//! differ by more than the dead zone of `100` thousandths the step count
//! is `|end - start| / 10` rounded to nearest and capped at `30`, else it
//! is `0` and the change is treated as imperceptible. `next` then yields
//! one intermediate value per call until the plan is exhausted; the
//! generator is not restartable, a new `set` is needed for a new target.
//! The configured per-step and idle delays are carried along as plain
//! millisecond counts for the caller that paces the loop.

use vstd::prelude::*;
use crate::brightness::SCALE;
use crate::brightness::is_level;
use crate::easing::ease;
use crate::easing::knot;
use crate::easing::ease_spec;
use crate::easing::lemma_ease_mono;
use crate::easing::lemma_ease_bounds;
use vstd::arithmetic::div_mod::lemma_div_is_ordered;

verus! {

/// Levels this far apart or closer, in thousandths, are treated as the
/// same: sensor jitter below the dead zone triggers no transition.
pub const DEAD_ZONE: u32 = 100;

/// No transition takes more than this many steps, whatever the jump.
pub const MAX_STEPS: u32 = 30;

/// Default per-step transition delay, in milliseconds.
pub const DEFAULT_STEP_MS: u64 = 50;

/// Default idle delay between polling cycles, in milliseconds.
pub const DEFAULT_SLEEP_MS: u64 = 1000;

/// The magnitude of the jump between two levels, in thousandths.
pub open spec fn level_gap(start: int, end: int) -> int {
    if end >= start {
        end - start
    } else {
        start - end
    }
}

/// The planned number of steps for a jump: zero inside the dead zone,
/// otherwise one step per hundredth of the jump, rounded to nearest and
/// capped at `MAX_STEPS`.
pub open spec fn step_count(start: int, end: int) -> int {
    let gap = level_gap(start, end);
    if gap > DEAD_ZONE as int {
        let n = (gap + 5) / 10;
        if n < MAX_STEPS as int {
            n
        } else {
            MAX_STEPS as int
        }
    } else {
        0
    }
}

/// The value yielded at step `k` of a transition of `n` steps: the start
/// level moved toward the end level by the eased share of progress
/// `k / n`, in thousandths.
pub open spec fn step_value(start: int, end: int, n: int, k: int) -> int {
    let p = ease_spec((k * 1000) / n);
    if end >= start {
        start + ((end - start) * p) / 1000
    } else {
        start - ((start - end) * p) / 1000
    }
}

/// The dead zone: two levels within `DEAD_ZONE` thousandths of each
/// other plan no transition at all, so sensor jitter below the threshold
/// produces no intermediate values and no visible flicker.
pub proof fn lemma_dead_zone(start: int, end: int)
    requires
        level_gap(start, end) <= DEAD_ZONE as int,
    ensures
        step_count(start, end) == 0,
{
}

/// The cap: however large the jump, a transition never plans more than
/// `MAX_STEPS` steps, and outside the dead zone it always plans at least
/// one, so every transition is finite and every perceptible change is
/// smoothed.
pub proof fn lemma_step_count_bounds(start: int, end: int)
    ensures
        0 <= step_count(start, end) <= MAX_STEPS as int,
        level_gap(start, end) > DEAD_ZONE as int ==> step_count(start, end) >= 1,
{
}

/// Every yielded value lies between the two levels of the transition.
pub proof fn lemma_step_value_bounds(start: int, end: int, n: int, k: int)
    requires
        0 <= start <= SCALE as int,
        0 <= end <= SCALE as int,
        0 <= k < n,
    ensures
        end >= start ==> start <= step_value(start, end, n, k) <= end,
        end < start ==> end <= step_value(start, end, n, k) <= start,
{
    let t = (k * 1000) / n;
    assert(0 <= t <= 1000) by (nonlinear_arith)
        requires
            0 <= k < n,
            t == (k * 1000) / n,
    ;
    lemma_ease_bounds(t);
    let p = ease_spec(t);
    let gap = if end >= start { end - start } else { start - end };
    assert(0 <= gap * p <= gap * 1000) by (nonlinear_arith)
        requires
            gap >= 0,
            0 <= p <= 1000,
    ;
    assert((gap * p) / 1000 >= 0) by (nonlinear_arith)
        requires
            gap * p >= 0,
    ;
    assert((gap * p) / 1000 <= gap) by (nonlinear_arith)
        requires
            gap * p <= gap * 1000,
    ;
}

/// Under a monotone gap the yielded sequence is itself monotone: each
/// step moves the level toward the end and never back.
pub proof fn lemma_step_value_mono(start: int, end: int, n: int, k1: int, k2: int)
    requires
        0 <= start <= SCALE as int,
        0 <= end <= SCALE as int,
        0 <= k1 <= k2 < n,
    ensures
        end >= start ==> step_value(start, end, n, k1) <= step_value(start, end, n, k2),
        end < start ==> step_value(start, end, n, k1) >= step_value(start, end, n, k2),
{
    let t1 = (k1 * 1000) / n;
    let t2 = (k2 * 1000) / n;
    assert(k1 * 1000 <= k2 * 1000) by (nonlinear_arith)
        requires
            k1 <= k2,
    ;
    assert(k1 * 1000 >= 0) by (nonlinear_arith)
        requires
            k1 >= 0,
    ;
    lemma_div_is_ordered(k1 * 1000, k2 * 1000, n);
    assert(0 <= t1 && t2 <= 1000) by (nonlinear_arith)
        requires
            0 <= k1 <= k2 < n,
            t1 == (k1 * 1000) / n,
            t2 == (k2 * 1000) / n,
    ;
    lemma_ease_mono(t1, t2);
    let p1 = ease_spec(t1);
    let p2 = ease_spec(t2);
    let gap = if end >= start { end - start } else { start - end };
    assert(gap * p1 <= gap * p2) by (nonlinear_arith)
        requires
            gap >= 0,
            p1 <= p2,
    ;
    assert(gap * p1 >= 0) by (nonlinear_arith)
        requires
            gap >= 0,
            p1 >= 0,
        ;
    lemma_div_is_ordered(gap * p1, gap * p2, 1000);
}

/// A planned transition ends where it aims: its last yielded value lies
/// within `2` thousandths of the end level. The residue is far inside
/// the dead zone, so a repeated target settles on its exact value on the
/// following cycle.
pub proof fn lemma_final_step_near_end(start: int, end: int)
    requires
        0 <= start <= SCALE as int,
        0 <= end <= SCALE as int,
        step_count(start, end) > 0,
    ensures
        level_gap(step_value(start, end, step_count(start, end), step_count(start, end) - 1), end)
            <= 2,
{
    let n = step_count(start, end);
    let gap = level_gap(start, end);
    assert(10 <= n <= 30);
    let t = ((n - 1) * 1000) / n;
    assert(900 <= t < 1000) by (nonlinear_arith)
        requires
            10 <= n <= 30,
            t == ((n - 1) * 1000) / n,
    ;
    lemma_ease_mono(900, t);
    lemma_ease_bounds(t);
    let p = ease_spec(t);
    assert(ease_spec(900) == 998) by {
        assert(900int / 100 == 9) by (nonlinear_arith);
        assert(900int % 100 == 0) by (nonlinear_arith);
        assert((knot(10) - knot(9)) * 0 == 0) by (nonlinear_arith);
        assert(0int / 100 == 0) by (nonlinear_arith);
    }
    assert(998 <= p <= 999);
    assert(gap * p >= gap * 998) by (nonlinear_arith)
        requires
            gap >= 0,
            p >= 998,
    ;
    assert(gap * 998 >= (gap - 2) * 1000) by (nonlinear_arith)
        requires
            gap <= 1000,
    ;
    lemma_div_is_ordered((gap - 2) * 1000, gap * p, 1000);
    assert(((gap - 2) * 1000) / 1000 == gap - 2) by {
        vstd::arithmetic::mul::lemma_mul_is_commutative(gap - 2, 1000);
        vstd::arithmetic::div_mod::lemma_div_multiples_vanish(gap - 2, 1000);
    }
    lemma_step_value_bounds(start, end, n, n - 1);
    assert(gap * p <= gap * 1000) by (nonlinear_arith)
        requires
            gap >= 0,
            p <= 1000,
    ;
    assert((gap * p) / 1000 <= gap) by (nonlinear_arith)
        requires
            gap * p <= gap * 1000,
    ;
}

/// The transition engine's state: the two levels it interpolates
/// between, the planned step count, the number of steps already yielded,
/// and the configured pacing delays in milliseconds.
pub struct Transition {
    pub step_ms: u64,
    pub sleep_ms: u64,
    pub start: u32,
    pub end: u32,
    pub steps: u32,
    pub cur: u32,
}

impl Transition {
    /// Levels are valid, the step count respects the cap, and the
    /// cursor never passes the plan.
    pub open spec fn wf(self) -> bool {
        &&& is_level(self.start)
        &&& is_level(self.end)
        &&& self.steps <= MAX_STEPS
        &&& self.cur <= self.steps
    }

    /// An idle engine with the configured per-step and idle delays.
    pub fn new(step_ms: u64, sleep_ms: u64) -> (r: Transition)
        ensures
            r == (Transition { step_ms, sleep_ms, start: 0u32, end: 0u32, steps: 0u32, cur: 0u32 }),
            r.wf(),
    {
        Transition { step_ms, sleep_ms, start: 0, end: 0, steps: 0, cur: 0 }
    }

    /// Plans a fresh transition between two levels: the step count
    /// follows the dead-zone-and-cap policy and the cursor rewinds to
    /// the beginning. The pacing delays are unchanged.
    pub fn set(&mut self, start: u32, end: u32)
        requires
            is_level(start),
            is_level(end),
        ensures
            final(self).start == start,
            final(self).end == end,
            final(self).cur == 0,
            final(self).steps == step_count(start as int, end as int),
            final(self).step_ms == old(self).step_ms,
            final(self).sleep_ms == old(self).sleep_ms,
            final(self).wf(),
    {
        self.start = start;
        self.end = end;
        let gap: u32 = if end >= start {
            end - start
        } else {
            start - end
        };
        self.steps = if gap > DEAD_ZONE {
            let n: u32 = (gap + 5) / 10;
            if n < MAX_STEPS {
                n
            } else {
                MAX_STEPS
            }
        } else {
            0
        };
        self.cur = 0;
    }

    /// Yields the next intermediate level, or nothing once the plan is
    /// exhausted. An exhausted engine stays exhausted and unchanged.
    pub fn next(&mut self) -> (r: Option<u32>)
        requires
            old(self).wf(),
        ensures
            final(self).wf(),
            old(self).cur >= old(self).steps ==> r is None && *final(self) == *old(self),
            old(self).cur < old(self).steps ==> {
                &&& *final(self) == (Transition { cur: (old(self).cur + 1) as u32, ..*old(self) })
                &&& r matches Some(v) && v as int == step_value(
                    old(self).start as int,
                    old(self).end as int,
                    old(self).steps as int,
                    old(self).cur as int,
                )
                &&& is_level(r->Some_0)
            },
    {
        if self.cur >= self.steps {
            return None;
        }
        let t: u32 = self.cur * 1000 / self.steps;
        proof {
            assert(0 <= (self.cur as int * 1000) / (self.steps as int) <= 1000) by (nonlinear_arith)
                requires
                    0 <= self.cur < self.steps,
            ;
        }
        let p: u32 = ease(t);
        let v: u32 = if self.end >= self.start {
            let gap: u32 = self.end - self.start;
            proof {
                lemma_step_value_bounds(
                    self.start as int,
                    self.end as int,
                    self.steps as int,
                    self.cur as int,
                );
            }
            self.start + (gap as u64 * p as u64 / 1000) as u32
        } else {
            let gap: u32 = self.start - self.end;
            proof {
                lemma_step_value_bounds(
                    self.start as int,
                    self.end as int,
                    self.steps as int,
                    self.cur as int,
                );
            }
            self.start - (gap as u64 * p as u64 / 1000) as u32
        };
        self.cur = self.cur + 1;
        Some(v)
    }

    /// Yields the whole remaining sequence at once: one value per
    /// planned step, in order, leaving the engine exhausted. The caller
    /// paces and applies them one by one.
    pub fn drain(&mut self) -> (r: Vec<u32>)
        requires
            old(self).wf(),
        ensures
            final(self).wf(),
            *final(self) == (Transition { cur: old(self).steps, ..*old(self) }),
            r@.len() == old(self).steps - old(self).cur,
            forall|k: int| 0 <= k < r@.len() ==> r@[k] as int == step_value(
                old(self).start as int,
                old(self).end as int,
                old(self).steps as int,
                old(self).cur + k,
            ),
            forall|k: int| 0 <= k < r@.len() ==> is_level(#[trigger] r@[k]),
    {
        let mut out: Vec<u32> = Vec::new();
        loop
            invariant
                self.wf(),
                self.start == old(self).start,
                self.end == old(self).end,
                self.steps == old(self).steps,
                self.step_ms == old(self).step_ms,
                self.sleep_ms == old(self).sleep_ms,
                old(self).cur <= self.cur <= self.steps,
                out@.len() == self.cur - old(self).cur,
                forall|k: int| 0 <= k < out@.len() ==> out@[k] as int == step_value(
                    old(self).start as int,
                    old(self).end as int,
                    old(self).steps as int,
                    old(self).cur + k,
                ),
                forall|k: int| 0 <= k < out@.len() ==> is_level(#[trigger] out@[k]),
            decreases self.steps - self.cur,
        {
            let n = self.next();
            match n {
                Some(v) => {
                    out.push(v);
                },
                None => {
                    return out;
                },
            }
        }
    }
}

} // verus!
