//! The fixed-point easing curve for brightness transitions.
//!
//! The curve is the logistic function `f(x) = 1 / (exp(-15 * (x - 0.5)) + 1)`,
//! an S-shape with `f(0)` near `0`, `f(1)` near `1` and its steepest slope in
//! the middle, so a transition accelerates out of its start level and settles
//! into its end level without a visible step. In fixed point it is tabulated
//! at tenths of progress (values in thousandths, rounded to nearest) and
//! interpolated linearly in between; inputs and outputs are thousandths.

use vstd::prelude::*;

verus! {

/// The logistic curve's value, in thousandths, at `i` tenths of progress.
pub open spec fn knot(i: int) -> int {
    if i <= 0 {
        1
    } else if i == 1 {
        2
    } else if i == 2 {
        11
    } else if i == 3 {
        47
    } else if i == 4 {
        182
    } else if i == 5 {
        500
    } else if i == 6 {
        818
    } else if i == 7 {
        953
    } else if i == 8 {
        989
    } else if i == 9 {
        998
    } else {
        999
    }
}

/// The easing curve in thousandths: linear interpolation between the
/// tabulated logistic values. Defined for progress `t` in `[0, 1000]`.
pub open spec fn ease_spec(t: int) -> int {
    if t >= 1000 {
        999
    } else if t < 0 {
        1
    } else {
        let i = t / 100;
        let f = t % 100;
        knot(i) + ((knot(i + 1) - knot(i)) * f) / 100
    }
}

/// The tabulated values are strictly increasing from one knot to the next.
proof fn lemma_knot_step(i: int)
    requires
        0 <= i < 10,
    ensures
        knot(i) < knot(i + 1),
{
}

/// The tabulated values are non-decreasing across any span of knots.
proof fn lemma_knot_mono(i: int, j: int)
    requires
        0 <= i <= j <= 10,
    ensures
        knot(i) <= knot(j),
    decreases j - i,
{
    if i < j {
        lemma_knot_step(i);
        lemma_knot_mono(i + 1, j);
    }
}

/// Within one segment the curve stays between its two bounding knots.
proof fn lemma_ease_segment_bounds(t: int)
    requires
        0 <= t < 1000,
    ensures
        knot(t / 100) <= ease_spec(t) <= knot(t / 100 + 1),
{
    let i = t / 100;
    let f = t % 100;
    let d = knot(i + 1) - knot(i);
    assert(0 <= i < 10) by (nonlinear_arith)
        requires
            0 <= t < 1000,
            i == t / 100,
    ;
    lemma_knot_step(i);
    assert(0 <= f < 100) by (nonlinear_arith)
        requires
            t >= 0,
            f == t % 100,
    ;
    assert(0 <= d * f <= d * 100) by (nonlinear_arith)
        requires
            d > 0,
            0 <= f < 100,
    ;
    assert((d * f) / 100 >= 0) by (nonlinear_arith)
        requires
            d * f >= 0,
    ;
    assert((d * f) / 100 <= d) by (nonlinear_arith)
        requires
            d * f <= d * 100,
            d > 0,
    ;
}

/// The easing curve is monotone: more progress never gives a smaller value.
pub proof fn lemma_ease_mono(t1: int, t2: int)
    requires
        0 <= t1 <= t2 <= 1000,
    ensures
        ease_spec(t1) <= ease_spec(t2),
{
    if t1 < 1000 && t2 < 1000 {
        let i1 = t1 / 100;
        let i2 = t2 / 100;
        lemma_ease_segment_bounds(t1);
        lemma_ease_segment_bounds(t2);
        assert(i1 <= i2) by (nonlinear_arith)
            requires
                0 <= t1 <= t2,
                i1 == t1 / 100,
                i2 == t2 / 100,
        ;
        if i1 == i2 {
            let f1 = t1 % 100;
            let f2 = t2 % 100;
            let d = knot(i1 + 1) - knot(i1);
            assert(0 <= i1 < 10) by (nonlinear_arith)
                requires
                    0 <= t1 < 1000,
                    i1 == t1 / 100,
            ;
            lemma_knot_step(i1);
            assert(f1 <= f2) by (nonlinear_arith)
                requires
                    0 <= t1 <= t2,
                    t1 / 100 == t2 / 100,
                    f1 == t1 % 100,
                    f2 == t2 % 100,
            ;
            assert(d * f1 <= d * f2) by (nonlinear_arith)
                requires
                    d > 0,
                    f1 <= f2,
            ;
            vstd::arithmetic::div_mod::lemma_div_is_ordered(d * f1, d * f2, 100);
        } else {
            assert(0 <= i1 < 10 && 0 <= i2 < 10) by (nonlinear_arith)
                requires
                    0 <= t1 < 1000,
                    0 <= t2 < 1000,
                    i1 == t1 / 100,
                    i2 == t2 / 100,
            ;
            lemma_knot_mono(i1 + 1, i2);
        }
    } else if t1 < 1000 {
        lemma_ease_segment_bounds(t1);
        let i1 = t1 / 100;
        assert(0 <= i1 < 10) by (nonlinear_arith)
            requires
                0 <= t1 < 1000,
                i1 == t1 / 100,
        ;
        lemma_knot_mono(i1 + 1, 10);
    }
}

/// The easing curve stays within `[1, 999]` thousandths on its domain.
pub proof fn lemma_ease_bounds(t: int)
    requires
        0 <= t <= 1000,
    ensures
        1 <= ease_spec(t) <= 999,
{
    lemma_ease_mono(0, t);
    lemma_ease_mono(t, 1000);
}

/// Looks up one tabulated value of the logistic curve.
fn knot_at(i: u32) -> (r: u32)
    requires
        i <= 10,
    ensures
        r == knot(i as int),
{
    if i == 0 {
        1
    } else if i == 1 {
        2
    } else if i == 2 {
        11
    } else if i == 3 {
        47
    } else if i == 4 {
        182
    } else if i == 5 {
        500
    } else if i == 6 {
        818
    } else if i == 7 {
        953
    } else if i == 8 {
        989
    } else if i == 9 {
        998
    } else {
        999
    }
}

/// Evaluates the easing curve at progress `t` thousandths.
pub fn ease(t: u32) -> (r: u32)
    requires
        t <= 1000,
    ensures
        r == ease_spec(t as int),
        1 <= r <= 999,
{
    proof {
        lemma_ease_bounds(t as int);
    }
    if t >= 1000 {
        999
    } else {
        let i: u32 = t / 100;
        let f: u32 = t % 100;
        let lo: u32 = knot_at(i);
        let hi: u32 = knot_at(i + 1);
        proof {
            assert(0 <= t as int / 100 < 10) by (nonlinear_arith)
                requires
                    0 <= t < 1000,
            ;
            lemma_knot_step(i as int);
        }
        lo + ((hi - lo) * f) / 100
    }
}

} // verus!
