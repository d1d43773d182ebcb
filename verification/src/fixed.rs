//! Fixed-point arithmetic on audio samples.
//!
//! A sample is an `i32` that counts units of 2^-24: full scale (1.0) is
//! [`ONE`], and eight integer bits of headroom remain above it. Products are
//! formed in a wider type and rounded toward zero, so that negating a factor
//! negates the product.

use vstd::prelude::*;

verus! {

/// The fixed-point encoding of 1.0.
pub const ONE: i32 = 0x0100_0000;

/// Division that rounds toward zero, as machine division on signed integers does.
pub open spec fn trunc_div(a: int, b: int) -> int
    recommends
        b > 0,
{
    if a >= 0 {
        a / b
    } else {
        -((-a) / b)
    }
}

/// The product of two fixed-point values, rounded toward zero.
pub open spec fn mul_fixed(a: int, b: int) -> int {
    trunc_div(a * b, ONE as int)
}

/// The nearest value that an `i32` can hold.
pub open spec fn saturate(x: int) -> int {
    if x < i32::MIN {
        i32::MIN as int
    } else if x > i32::MAX {
        i32::MAX as int
    } else {
        x
    }
}

/// The absolute value of an integer.
pub open spec fn magnitude(x: int) -> int {
    if x < 0 {
        -x
    } else {
        x
    }
}

/// Euclidean division of a non-negative dividend: the quotient times the
/// divisor is the largest multiple of the divisor that is not above the
/// dividend.
pub proof fn lemma_div_brackets(a: int, b: int)
    by (nonlinear_arith)
    requires
        a >= 0,
        b > 0,
    ensures
        0 <= a / b <= a,
        b * (a / b) <= a < b * (a / b) + b,
{
}

/// Non-negative dividends that lie less than `k` divisors apart have
/// quotients that lie at most `k` apart.
pub proof fn lemma_div_step(a: int, c: int, b: int, k: int)
    requires
        b > 0,
        k >= 0,
        0 <= a <= c < a + k * b,
    ensures
        a / b <= c / b <= a / b + k,
{
    lemma_div_brackets(a, b);
    lemma_div_brackets(c, b);
    let qa = a / b;
    let qc = c / b;
    assert(qa <= qc <= qa + k) by (nonlinear_arith)
        requires
            b > 0,
            k >= 0,
            a <= c < a + k * b,
            b * qa <= a < b * qa + b,
            b * qc <= c < b * qc + b,
    ;
}

/// Rounding toward zero commutes with negation.
pub proof fn lemma_trunc_div_odd(a: int, b: int)
    requires
        b > 0,
    ensures
        trunc_div(-a, b) == -trunc_div(a, b),
{
    if a == 0 {
        lemma_div_brackets(0, b);
    }
}

/// A quotient is no larger in magnitude than its dividend, and has its sign.
pub proof fn lemma_trunc_div_bounds(a: int, b: int)
    requires
        b > 0,
    ensures
        magnitude(trunc_div(a, b)) <= magnitude(a),
        a >= 0 ==> trunc_div(a, b) >= 0,
        a <= 0 ==> trunc_div(a, b) <= 0,
{
    lemma_div_brackets(magnitude(a), b);
}

/// Dividends that lie less than `k` divisors apart, with `k` at least one,
/// have quotients that lie at most `k` apart, in the same order.
pub proof fn lemma_trunc_div_step(a: int, c: int, b: int, k: int)
    requires
        b > 0,
        k >= 1,
        a <= c < a + k * b,
    ensures
        trunc_div(a, b) <= trunc_div(c, b) <= trunc_div(a, b) + k,
{
    if a >= 0 {
        lemma_div_step(a, c, b, k);
    } else if c < 0 {
        lemma_div_step(-c, -a, b, k);
    } else {
        // The dividends straddle zero: each quotient is within `k - 1` of it.
        assert((k - 1) * b + b == k * b) by (nonlinear_arith);
        lemma_div_brackets(-a, b);
        lemma_div_brackets(c, b);
        let qa = (-a) / b;
        let qc = c / b;
        assert(qa + qc <= k) by (nonlinear_arith)
            requires
                b > 0,
                k >= 1,
                0 < -a,
                0 <= c,
                c + (-a) < k * b,
                b * qa <= -a,
                b * qc <= c,
        ;
    }
}

/// The magnitude of a product of two samples fits in 62 bits.
pub proof fn lemma_sample_product_bounds(a: int, b: int)
    requires
        i32::MIN <= a <= i32::MAX,
        i32::MIN <= b <= i32::MAX,
    ensures
        -0x4000_0000_0000_0000 <= a * b <= 0x4000_0000_0000_0000,
{
    assert(-0x4000_0000_0000_0000 <= a * b <= 0x4000_0000_0000_0000) by (nonlinear_arith)
        requires
            -0x8000_0000 <= a <= 0x8000_0000,
            -0x8000_0000 <= b <= 0x8000_0000,
    ;
}

/// Multiplies two fixed-point values. The result is kept wide: the product of
/// two samples can exceed the range of a sample.
pub fn multiply(a: i32, b: i32) -> (product: i64)
    ensures
        product == mul_fixed(a as int, b as int),
        -0x4000_0000_0000_0000 <= product <= 0x4000_0000_0000_0000,
{
    proof {
        lemma_sample_product_bounds(a as int, b as int);
        lemma_trunc_div_bounds(a * b, ONE as int);
    }
    let wide: i64 = (a as i64) * (b as i64);
    wide / (ONE as i64)
}

/// Narrows a wide value to a sample, clamping at the ends of the range.
pub fn saturating(x: i64) -> (sample: i32)
    ensures
        sample == saturate(x as int),
{
    if x < i32::MIN as i64 {
        i32::MIN
    } else if x > i32::MAX as i64 {
        i32::MAX
    } else {
        x as i32
    }
}

} // verus!
