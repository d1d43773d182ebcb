//! The peak meter: a level that jumps up to a louder frame at once and
//! decays geometrically toward a quieter one.

use vstd::prelude::*;
use vstd::arithmetic::power::{lemma_pow0, lemma_pow_positive, pow};
use crate::fixed::{lemma_div_brackets, magnitude, mul_fixed, saturate, trunc_div, ONE};

verus! {

/// The meter after one frame of amplitude `amplitude`: the amplitude itself
/// where it exceeds the meter, else the weighted mean of the two, with
/// `weight` on the meter, rounded toward zero once.
pub open spec fn next_peak(current: int, amplitude: int, weight: int) -> int {
    if amplitude > current {
        amplitude
    } else {
        trunc_div(current * weight + amplitude * (ONE - weight), ONE as int)
    }
}

/// The sum of a frame's samples.
pub open spec fn frame_sum(samples: Seq<i32>) -> int
    decreases samples.len(),
{
    if samples.len() == 0 {
        0
    } else {
        frame_sum(samples.drop_last()) + samples.last()
    }
}

/// The amplitude of a frame of `channels` channels, of which `samples` were
/// processed: the magnitude of their sum over the number of channels. A
/// frame without channels has no amplitude.
pub open spec fn frame_amplitude(samples: Seq<i32>, channels: nat) -> int {
    if channels == 0 {
        0
    } else {
        saturate(magnitude(trunc_div(frame_sum(samples), channels as int)))
    }
}

/// The meter after `frames` frames of silence.
pub open spec fn decayed(level: int, weight: int, frames: nat) -> int
    decreases frames,
{
    if frames == 0 {
        level
    } else {
        next_peak(decayed(level, weight, (frames - 1) as nat), 0, weight)
    }
}

/// A meter that is not negative stays so. It rises to a larger amplitude
/// at once, and falls toward a smaller one without passing it.
pub proof fn lemma_next_peak_bounds(current: int, amplitude: int, weight: int)
    requires
        0 <= current,
        0 <= amplitude,
        0 < weight <= ONE,
    ensures
        0 <= next_peak(current, amplitude, weight),
        amplitude > current ==> next_peak(current, amplitude, weight) == amplitude,
        amplitude <= current ==> amplitude <= next_peak(current, amplitude, weight) <= current,
{
    if amplitude <= current {
        let s = ONE as int;
        let mix = current * weight + amplitude * (s - weight);
        assert(amplitude * s <= mix <= current * s) by (nonlinear_arith)
            requires
                0 <= amplitude <= current,
                0 < weight <= s,
                mix == current * weight + amplitude * (s - weight),
        ;
        lemma_div_brackets(mix, s);
        let q = mix / s;
        assert(amplitude <= q <= current) by (nonlinear_arith)
            requires
                s > 0,
                s * q <= mix < s * q + s,
                amplitude * s <= mix <= current * s,
        ;
    }
}

/// In silence the meter falls to its weighted level: it never rises, and
/// with a weight below one a meter above zero falls.
pub proof fn lemma_silent_step(current: int, weight: int)
    requires
        0 <= current,
        0 < weight <= ONE,
    ensures
        next_peak(current, 0, weight) == mul_fixed(current, weight),
        0 <= next_peak(current, 0, weight) <= current,
        weight < ONE && current > 0 ==> next_peak(current, 0, weight) < current,
{
    let s = ONE as int;
    lemma_next_peak_bounds(current, 0, weight);
    assert(0 * (s - weight) == 0) by (nonlinear_arith);
    let kept = current * weight;
    assert(kept >= 0) by (nonlinear_arith)
        requires
            kept == current * weight,
            current >= 0,
            weight > 0,
    ;
    lemma_div_brackets(kept, s);
    if weight < s && current > 0 {
        let q = kept / s;
        assert(q < current) by (nonlinear_arith)
            requires
                s > 0,
                0 < weight < s,
                current > 0,
                kept == current * weight,
                s * q <= kept,
        ;
    }
}

/// Silence makes the meter decay geometrically: after `frames` frames it
/// lies at most `frames` steps below the level times the weight to the
/// power of `frames`, and never above it. (Both sides are scaled by one to
/// that power.)
pub proof fn lemma_silent_decay(level: int, weight: int, frames: nat)
    requires
        0 <= level,
        0 < weight <= ONE,
    ensures
        0 <= decayed(level, weight, frames) <= level,
        decayed(level, weight, frames) * pow(ONE as int, frames) <= level * pow(weight, frames),
        level * pow(weight, frames) - frames * pow(ONE as int, frames) <= decayed(
            level,
            weight,
            frames,
        ) * pow(ONE as int, frames),
    decreases frames,
{
    let s = ONE as int;
    if frames == 0 {
        lemma_pow0(s);
        lemma_pow0(weight);
    } else {
        let k = (frames - 1) as nat;
        let before = decayed(level, weight, k);
        let after = decayed(level, weight, frames);
        lemma_silent_decay(level, weight, k);
        lemma_silent_step(before, weight);
        let kept = before * weight;
        assert(kept >= 0) by (nonlinear_arith)
            requires
                kept == before * weight,
                before >= 0,
                weight > 0,
        ;
        lemma_div_brackets(kept, s);
        assert(after == kept / s);
        let sk = pow(s, k);
        let wk = pow(weight, k);
        lemma_pow_positive(s, k);
        lemma_pow_positive(weight, k);
        assert(pow(s, frames) == s * sk) by {
            reveal(pow);
        }
        assert(pow(weight, frames) == weight * wk) by {
            reveal(pow);
        }
        assert(after * (s * sk) <= level * (weight * wk)) by (nonlinear_arith)
            requires
                s * after <= before * weight,
                before * sk <= level * wk,
                sk > 0,
                weight > 0,
                s > 0,
        ;
        assert(level * (weight * wk) - (k + 1) * (s * sk) <= after * (s * sk)) by (nonlinear_arith)
            requires
                before * weight < s * after + s,
                level * wk - k * sk <= before * sk,
                sk > 0,
                0 < weight <= s,
                k >= 0,
        ;
    }
}

/// With a weight whose power over `frames` frames is at most a quarter,
/// that many frames of silence bring the meter down to a quarter of its
/// level or below: twelve decibels.
pub proof fn lemma_quarter_at_most(level: int, weight: int, frames: nat)
    requires
        0 <= level,
        0 < weight <= ONE,
        4 * pow(weight, frames) <= pow(ONE as int, frames),
    ensures
        4 * decayed(level, weight, frames) <= level,
{
    lemma_silent_decay(level, weight, frames);
    lemma_pow_positive(ONE as int, frames);
    let d = decayed(level, weight, frames);
    let sn = pow(ONE as int, frames);
    let wn = pow(weight, frames);
    assert(4 * d <= level) by (nonlinear_arith)
        requires
            sn > 0,
            level >= 0,
            d * sn <= level * wn,
            4 * wn <= sn,
    ;
}

/// With a weight whose power over `frames` frames is at least a quarter,
/// that many frames of silence leave the meter no more than `frames` steps
/// below a quarter of its level.
pub proof fn lemma_quarter_at_least(level: int, weight: int, frames: nat)
    requires
        0 <= level,
        0 < weight <= ONE,
        4 * pow(weight, frames) >= pow(ONE as int, frames),
    ensures
        level <= 4 * (decayed(level, weight, frames) + frames),
{
    lemma_silent_decay(level, weight, frames);
    lemma_pow_positive(ONE as int, frames);
    let d = decayed(level, weight, frames);
    let sn = pow(ONE as int, frames);
    let wn = pow(weight, frames);
    assert(level <= 4 * (d + frames)) by (nonlinear_arith)
        requires
            sn > 0,
            level >= 0,
            level * wn - frames * sn <= d * sn,
            4 * wn >= sn,
    ;
}

} // verus!
