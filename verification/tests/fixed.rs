use softraster::fixed::{div_floor, fixed_div, fixed_mul, fixed_neg, isqrt, saturate_i128, wide_mul};
use softraster::fixed::{HALF, ONE};

#[test]
fn products_round_down_and_clamp() {
    assert_eq!(fixed_mul(3 * HALF, 5 * HALF), 245760);
    assert_eq!(fixed_mul(-3 * HALF, HALF), -49152);
    assert_eq!(fixed_mul(-1, 1), -1);
    assert_eq!(fixed_mul(1, 1), 0);
    assert_eq!(fixed_mul(ONE, 12345), 12345);
    assert_eq!(fixed_mul(i32::MAX, i32::MAX), i32::MAX);
    assert_eq!(fixed_mul(i32::MIN, i32::MAX), i32::MIN);
    assert_eq!(fixed_mul(i32::MIN, i32::MIN), i32::MAX);
}

#[test]
fn quotients_round_down_and_clamp() {
    assert_eq!(fixed_div(ONE, 3 * ONE), 21845);
    assert_eq!(fixed_div(-ONE, 3 * ONE), -21846);
    assert_eq!(fixed_div(7 * ONE, -2 * ONE), -229376);
    assert_eq!(fixed_div(12345, ONE), 12345);
    assert_eq!(fixed_div(30000 * ONE, 1), i32::MAX);
    assert_eq!(fixed_div(-30000 * ONE, 1), i32::MIN);
}

#[test]
fn division_by_zero_saturates() {
    assert_eq!(fixed_div(5, 0), i32::MAX);
    assert_eq!(fixed_div(-5, 0), i32::MIN);
    assert_eq!(fixed_div(0, 0), 0);
}

#[test]
fn negation_clamps_the_most_negative_value() {
    assert_eq!(fixed_neg(ONE), -ONE);
    assert_eq!(fixed_neg(-7), 7);
    assert_eq!(fixed_neg(0), 0);
    assert_eq!(fixed_neg(i32::MIN), i32::MAX);
    assert_eq!(fixed_neg(i32::MAX), i32::MIN + 1);
}

#[test]
fn floor_division_rounds_toward_negative_infinity() {
    assert_eq!(div_floor(7, 2), 3);
    assert_eq!(div_floor(-7, 2), -4);
    assert_eq!(div_floor(7, -2), -4);
    assert_eq!(div_floor(-7, -2), 3);
    assert_eq!(div_floor(-8, 2), -4);
    assert_eq!(div_floor(0, -5), 0);
    assert_eq!(div_floor(-1, 65536), -1);
}

#[test]
fn saturation_clamps_to_the_range() {
    assert_eq!(saturate_i128(5), 5);
    assert_eq!(saturate_i128(1 << 40), i32::MAX);
    assert_eq!(saturate_i128(-(1 << 40)), i32::MIN);
    assert_eq!(saturate_i128(i32::MAX as i128 + 1), i32::MAX);
    assert_eq!(saturate_i128(i32::MIN as i128), i32::MIN);
}

#[test]
fn square_roots_round_down() {
    assert_eq!(isqrt(0), 0);
    assert_eq!(isqrt(1), 1);
    assert_eq!(isqrt(3), 1);
    assert_eq!(isqrt(4), 2);
    assert_eq!(isqrt(99), 9);
    assert_eq!(isqrt(100), 10);
    assert_eq!(isqrt(1 << 64), 1 << 32);
    assert_eq!(isqrt((1 << 64) - 1), (1 << 32) - 1);
    assert_eq!(isqrt(u128::MAX), u64::MAX);
}

#[test]
fn wide_products_are_exact() {
    assert_eq!(wide_mul(i64::MAX, i64::MAX), (i64::MAX as i128) * (i64::MAX as i128));
    assert_eq!(wide_mul(i64::MIN, i64::MIN), 1i128 << 126);
    assert_eq!(wide_mul(-3, 7), -21);
}
