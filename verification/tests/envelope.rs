use esc::envelope::rectify;
use esc::fixed::{multiply, saturating, ONE};
use esc::Esc;

#[test]
fn one_is_two_to_the_24th() {
    assert_eq!(ONE, 1 << 24);
}

#[test]
fn products_round_toward_zero() {
    assert_eq!(multiply(ONE, ONE), ONE as i64);
    assert_eq!(multiply(ONE / 2, ONE / 2), (ONE / 4) as i64);
    assert_eq!(multiply(3, ONE / 2), 1);
    assert_eq!(multiply(-3, ONE / 2), -1);
    assert_eq!(multiply(3, -ONE / 2), -1);
    assert_eq!(multiply(-3, -ONE / 2), 1);
    assert_eq!(multiply(1, 1), 0);
    assert_eq!(multiply(-1, 1), 0);
    assert_eq!(multiply(0, i32::MIN), 0);
    assert_eq!(multiply(i32::MIN, i32::MIN), 1 << 38);
    assert_eq!(multiply(i32::MAX, i32::MIN), -((1i64 << 38) - 128));
}

#[test]
fn narrowing_clamps_at_both_ends() {
    assert_eq!(saturating(0), 0);
    assert_eq!(saturating(-17), -17);
    assert_eq!(saturating(i32::MAX as i64), i32::MAX);
    assert_eq!(saturating(i32::MAX as i64 + 1), i32::MAX);
    assert_eq!(saturating(i32::MIN as i64), i32::MIN);
    assert_eq!(saturating(i32::MIN as i64 - 1), i32::MIN);
    assert_eq!(saturating(i64::MAX), i32::MAX);
    assert_eq!(saturating(i64::MIN), i32::MIN);
}

#[test]
fn rectify_takes_the_magnitude() {
    assert_eq!(rectify(0), 0);
    assert_eq!(rectify(5), 5);
    assert_eq!(rectify(-5), 5);
    assert_eq!(rectify(i32::MAX), i32::MAX);
    assert_eq!(rectify(i32::MIN + 1), i32::MAX);
    assert_eq!(rectify(i32::MIN), i32::MAX);
}

#[test]
fn softclip_follows_the_cubic() {
    let chain = Esc::default();
    let one = ONE as i64;
    assert_eq!(chain.softclip(0), 0);
    // f(1/2) = 11/16 and f(1/4) = 47/128, both exact.
    assert_eq!(chain.softclip(one / 2), ONE / 16 * 11);
    assert_eq!(chain.softclip(one / 4), ONE / 128 * 47);
    assert_eq!(chain.softclip(-one / 2), -(ONE / 16 * 11));
    // f(3/4) = 117/128.
    assert_eq!(chain.softclip(one / 4 * 3), ONE / 128 * 117);
    // The smallest steps: 3/2 rounds toward zero.
    assert_eq!(chain.softclip(1), 1);
    assert_eq!(chain.softclip(2), 2);
    assert_eq!(chain.softclip(3), 4);
    assert_eq!(chain.softclip(-1), -1);
    assert_eq!(chain.softclip(-3), -4);
}

#[test]
fn softclip_clamps_outside_the_unit_range() {
    let chain = Esc::default();
    let one = ONE as i64;
    assert_eq!(chain.softclip(one), ONE);
    assert_eq!(chain.softclip(-one), -ONE);
    assert_eq!(chain.softclip(one + 1), ONE);
    assert_eq!(chain.softclip(-one - 1), -ONE);
    assert_eq!(chain.softclip(2 * one), ONE);
    assert_eq!(chain.softclip(i64::MAX), ONE);
    assert_eq!(chain.softclip(i64::MIN), -ONE);
}

#[test]
fn softclip_is_odd_bounded_and_rising() {
    let chain = Esc::default();
    let one = ONE as i64;
    let mut last = chain.softclip(-one - 1_000);
    let mut x = -one - 1_000;
    while x <= one + 1_000 {
        let y = chain.softclip(x);
        assert!(-ONE <= y && y <= ONE);
        assert_eq!(chain.softclip(-x), -y);
        assert!(y >= last);
        last = y;
        x += 9_973;
    }
}

#[test]
fn softclip_has_no_jump_at_the_clamp_points() {
    let chain = Esc::default();
    let one = ONE as i64;
    for centre in [-one, 0, one] {
        for x in (centre - 50)..(centre + 50) {
            let step = chain.softclip(x + 1) - chain.softclip(x);
            assert!(0 <= step && step <= 2, "at {}", x);
        }
    }
    assert_eq!(chain.softclip(one - 1), ONE - 1);
    assert_eq!(chain.softclip(1 - one), 1 - ONE);
}

#[test]
fn softclip_agrees_with_the_real_cubic() {
    let chain = Esc::default();
    let mut x = -(ONE as i64);
    while x <= ONE as i64 {
        let real = x as f64 / ONE as f64;
        let expected = (real - real * real * real / 3.0) * 1.5;
        let got = chain.softclip(x) as f64 / ONE as f64;
        assert!((got - expected).abs() < 1.0e-7, "at {}", x);
        x += 65_521;
    }
}

#[test]
fn control_value_is_the_clipped_product() {
    let chain = Esc::default();
    assert_eq!(chain.control_value(0, ONE), 0);
    assert_eq!(chain.control_value(ONE / 2, ONE), ONE / 16 * 11);
    assert_eq!(chain.control_value(ONE / 4, 2 * ONE), ONE / 16 * 11);
    assert_eq!(chain.control_value(ONE / 2, 2 * ONE), ONE);
    assert_eq!(chain.control_value(ONE, 16 * ONE), ONE);
    assert_eq!(chain.control_value(-ONE, 16 * ONE), -ONE);
    assert_eq!(chain.control_value(i32::MAX, i32::MAX), ONE);
    assert_eq!(chain.control_value(i32::MIN, i32::MAX), -ONE);
}
