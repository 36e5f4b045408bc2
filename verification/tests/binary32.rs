use softraster::binary32::fixed_from_bits;

fn fixed(v: f32) -> i32 {
    fixed_from_bits(v.to_bits())
}

#[test]
fn whole_and_dyadic_numbers_convert_exactly() {
    assert_eq!(fixed(0.0), 0);
    assert_eq!(fixed(-0.0), 0);
    assert_eq!(fixed(1.0), 65536);
    assert_eq!(fixed(-1.0), -65536);
    assert_eq!(fixed(0.5), 32768);
    assert_eq!(fixed(-0.25), -16384);
    assert_eq!(fixed(3.75), 245760);
    assert_eq!(fixed(800.0), 800 * 65536);
    assert_eq!(fixed(1.0 / 65536.0), 1);
    assert_eq!(fixed(-1.0 / 65536.0), -1);
    assert_eq!(fixed(32767.0), 32767 * 65536);
    assert_eq!(fixed(-32768.0), i32::MIN);
}

#[test]
fn other_numbers_round_down() {
    assert_eq!(fixed(0.1), 6553);
    assert_eq!(fixed(-0.1), -6554);
    assert_eq!(fixed(0.7), 45875);
    assert_eq!(fixed(1.0 / 131072.0), 0);
    assert_eq!(fixed(-1.0 / 131072.0), -1);
    assert_eq!(fixed(1e-30), 0);
    assert_eq!(fixed(-1e-30), -1);
    assert_eq!(fixed(f32::MIN_POSITIVE / 4.0), 0);
    assert_eq!(fixed(-f32::MIN_POSITIVE / 4.0), -1);
    assert_eq!(fixed(std::f32::consts::PI), 205887);
    assert_eq!(fixed(-std::f32::consts::PI), -205888);
    assert_eq!(fixed(12345.678), 809086336);
}

#[test]
fn large_numbers_clamp() {
    assert_eq!(fixed(32768.0), i32::MAX);
    assert_eq!(fixed(40000.0), i32::MAX);
    assert_eq!(fixed(-40000.0), i32::MIN);
    assert_eq!(fixed(-32768.5), i32::MIN);
    assert_eq!(fixed(f32::MAX), i32::MAX);
    assert_eq!(fixed(f32::MIN), i32::MIN);
    assert_eq!(fixed(32767.998), 2147483520);
}

#[test]
fn infinities_clamp_and_nan_is_zero() {
    assert_eq!(fixed(f32::INFINITY), i32::MAX);
    assert_eq!(fixed(f32::NEG_INFINITY), i32::MIN);
    assert_eq!(fixed(f32::NAN), 0);
    assert_eq!(fixed_from_bits(0xffc0_0001), 0);
}

#[test]
fn conversion_agrees_with_scaling_in_double_precision() {
    let mut bits: u32 = 0x9e37_79b9;
    for _ in 0..20000 {
        bits = bits.wrapping_mul(1664525).wrapping_add(1013904223);
        let value = f32::from_bits(bits);
        if value.is_nan() {
            continue;
        }
        let expected = (value as f64 * 65536.0).floor().clamp(i32::MIN as f64, i32::MAX as f64);
        assert_eq!(fixed_from_bits(bits) as f64, expected, "bits {bits:#x}");
    }
}
