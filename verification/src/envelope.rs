//! The sidechain envelope: rectification and the bounded soft clipper that
//! turns a smoothed, gain-scaled level into a control value.

use vstd::prelude::*;
use crate::fixed::{
    lemma_div_brackets, lemma_trunc_div_odd, lemma_trunc_div_step, magnitude, mul_fixed, saturate,
    trunc_div, ONE,
};

verus! {

/// The numerator of the clipper's cubic: `x * (3 - x^2)` at fixed-point scale.
pub open spec fn cubic(x: int) -> int {
    x * (3 * (ONE as int) * (ONE as int) - x * x)
}

/// The cubic soft clipper `(x - x^3/3) * 3/2` on fixed-point values, clamped
/// to -1 below -1 and to +1 above +1.
pub open spec fn soft_clip(x: int) -> int {
    if x < -(ONE as int) {
        -(ONE as int)
    } else if x > ONE as int {
        ONE as int
    } else {
        trunc_div(cubic(x), clip_divisor())
    }
}

/// The control value derived from a smoothed sidechain level and a gain.
pub open spec fn control(level: int, gain: int) -> int {
    soft_clip(mul_fixed(level, gain))
}

/// The absolute value of a sample, clamped to the range of a sample.
pub open spec fn rectified(x: int) -> int {
    saturate(magnitude(x))
}

/// Twice the square of the scale: the clipper's divisor.
pub open spec fn clip_divisor() -> int {
    2 * (ONE as int) * (ONE as int)
}

proof fn lemma_clip_divisor_positive()
    ensures
        clip_divisor() > 0,
{
    let s = ONE as int;
    assert(2 * s * s > 0) by (nonlinear_arith)
        requires
            s > 0,
    ;
}

proof fn lemma_cubic_range(m: int, s: int)
    by (nonlinear_arith)
    requires
        0 <= m <= s,
    ensures
        0 <= m * (3 * s * s - m * m) <= (2 * s * s) * s,
{
    assert(m * m <= s * s);
    assert((s - m) * (s - m) * (2 * s + m) >= 0);
    assert((s - m) * (s - m) * (2 * s + m) == (2 * s * s) * s - m * (3 * s * s - m * m));
}

proof fn lemma_cubic_step(x: int, s: int)
    by (nonlinear_arith)
    requires
        -s <= x < s,
    ensures
        0 <= (x + 1) * (3 * s * s - (x + 1) * (x + 1)) - x * (3 * s * s - x * x) < 2 * (2 * s
            * s),
{
    assert((x + 1) * (3 * s * s - (x + 1) * (x + 1)) - x * (3 * s * s - x * x) == 3 * s * s - (3
        * x * x + 3 * x + 1));
    assert(3 * x * x + 3 * x + 1 > 0);
    assert(s * s > 0);
    if x >= 0 {
        assert((x + 1) * (x + 1) <= s * s);
    } else {
        assert(x * x <= s * s);
    }
}

proof fn lemma_cubic_odd(x: int)
    ensures
        cubic(-x) == -cubic(x),
{
    let k = 3 * (ONE as int) * (ONE as int);
    assert((-x) * (k - (-x) * (-x)) == -(x * (k - x * x))) by (nonlinear_arith);
}

proof fn lemma_cubic_in_range(x: int)
    requires
        -(ONE as int) <= x <= ONE as int,
    ensures
        x >= 0 ==> 0 <= cubic(x) <= clip_divisor() * (ONE as int),
        x <= 0 ==> -(clip_divisor() * (ONE as int)) <= cubic(x) <= 0,
{
    if x >= 0 {
        lemma_cubic_range(x, ONE as int);
    } else {
        lemma_cubic_range(-x, ONE as int);
        lemma_cubic_odd(x);
    }
}

proof fn lemma_quotient_of_bounded(c: int, d: int, s: int)
    by (nonlinear_arith)
    requires
        d > 0,
        0 <= c <= d * s,
    ensures
        0 <= c / d <= s,
        c == d * s ==> c / d == s,
{
}

/// The clipper's output never leaves [-1, 1].
pub proof fn lemma_soft_clip_bounded(x: int)
    ensures
        -(ONE as int) <= soft_clip(x) <= ONE as int,
{
    if -(ONE as int) <= x <= ONE as int {
        lemma_clip_divisor_positive();
        lemma_cubic_in_range(x);
        lemma_cubic_odd(x);
        lemma_quotient_of_bounded(magnitude(cubic(x)), clip_divisor(), ONE as int);
    }
}

/// The clipper is odd: negating the input negates the output.
pub proof fn lemma_soft_clip_odd(x: int)
    ensures
        soft_clip(-x) == -soft_clip(x),
{
    if -(ONE as int) <= x <= ONE as int {
        lemma_clip_divisor_positive();
        lemma_cubic_odd(x);
        lemma_trunc_div_odd(cubic(x), clip_divisor());
    }
}

/// The clipper maps silence to silence, and the cubic meets each clamp at
/// its end of the unclipped region.
pub proof fn lemma_soft_clip_fixed_points()
    ensures
        soft_clip(0) == 0,
        soft_clip(ONE as int) == ONE as int,
        soft_clip(-(ONE as int)) == -(ONE as int),
{
    let s = ONE as int;
    lemma_clip_divisor_positive();
    assert(cubic(0) == 0);
    lemma_quotient_of_bounded(0, clip_divisor(), s);
    assert(cubic(s) == clip_divisor() * s) by (nonlinear_arith)
        requires
            cubic(s) == s * (3 * s * s - s * s),
            clip_divisor() == 2 * s * s,
    ;
    lemma_quotient_of_bounded(cubic(s), clip_divisor(), s);
    lemma_cubic_odd(s);
}

/// The clipper has no jump anywhere, the clamp points included: one step of
/// the input moves the output up by at most two steps, and never down.
pub proof fn lemma_soft_clip_continuous(x: int)
    ensures
        soft_clip(x) <= soft_clip(x + 1) <= soft_clip(x) + 2,
{
    let s = ONE as int;
    lemma_soft_clip_fixed_points();
    if -s <= x < s {
        lemma_clip_divisor_positive();
        lemma_cubic_step(x, s);
        lemma_trunc_div_step(cubic(x), cubic(x + 1), clip_divisor(), 2);
    }
}

/// The clipper keeps the order of its inputs.
pub proof fn lemma_soft_clip_monotonic(x: int, y: int)
    requires
        x <= y,
    ensures
        soft_clip(x) <= soft_clip(y),
    decreases y - x,
{
    if x < y {
        lemma_soft_clip_monotonic(x, y - 1);
        lemma_soft_clip_continuous(y - 1);
    }
}

/// A silent sidechain gives a control value of zero, whatever the gain.
pub proof fn lemma_control_of_silence(gain: int)
    ensures
        control(0, gain) == 0,
{
    assert(0 * gain == 0) by (nonlinear_arith);
    lemma_div_brackets(0, ONE as int);
    lemma_soft_clip_fixed_points();
}

/// A level and a gain that are not negative give a control value between
/// zero and one.
pub proof fn lemma_control_range(level: int, gain: int)
    requires
        level >= 0,
        gain >= 0,
    ensures
        0 <= control(level, gain) <= ONE,
{
    assert(level * gain >= 0) by (nonlinear_arith)
        requires
            level >= 0,
            gain >= 0,
    ;
    lemma_div_brackets(level * gain, ONE as int);
    lemma_soft_clip_fixed_points();
    lemma_soft_clip_monotonic(0, mul_fixed(level, gain));
    lemma_soft_clip_bounded(mul_fixed(level, gain));
}

/// Rectifies a sample: its absolute value, with the one value whose negation
/// does not fit mapped to the largest sample.
pub fn rectify(sample: i32) -> (level: i32)
    ensures
        level == rectified(sample as int),
        level >= 0,
{
    if sample == i32::MIN {
        i32::MAX
    } else if sample < 0 {
        -sample
    } else {
        sample
    }
}

} // verus!
