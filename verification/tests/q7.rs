use numeric_codec::q7::{Q7, FRACTION_BITS, MAX_STORED, MIN_STORED};

fn quantize(x: f64) -> i8 {
    Q7::from_f64_bits(x.to_bits()).stored()
}

fn quantize32(x: f32) -> i8 {
    Q7::from_f32_bits(x.to_bits()).stored()
}

fn by_the_rule(x: f64) -> i8 {
    if x >= 1.0 {
        127
    } else if x <= -1.0 {
        -128
    } else {
        (x * 128.0) as i8
    }
}

#[test]
fn test_q7_from_f64() {
    let a = Q7::from_f64_bits(0.5f64.to_bits());
    assert_eq!(a.stored(), 64);
    assert_eq!(a, Q7::from_f32_bits(0.5f32.to_bits()));
}

#[test]
fn test_q7_to_f64() {
    let a = Q7::from_f64_bits(0.5f64.to_bits());
    let b = f64::from_bits(a.to_f64_bits());
    assert!((b - 0.5).abs() < 1e-6);
    assert_eq!(b, 0.5);
}

#[test]
fn test_q7_clamping() {
    assert_eq!(quantize(2.0), 127);
    assert_eq!(quantize(-2.0), -128);
}

#[test]
fn q7_from_f32() {
    assert_eq!(quantize32(0.5), 64);
    assert_eq!(quantize32(-0.5), -64);
    assert_eq!(quantize32(0.25), 32);
    assert_eq!(quantize32(2.0), 127);
    assert_eq!(quantize32(-2.0), -128);
}

#[test]
fn q7_to_f32() {
    let a = Q7::from_f32_bits(0.5f32.to_bits());
    let b = f32::from_bits(a.to_f32_bits());
    assert!((b - 0.5).abs() < 1e-6);
    assert_eq!(b, 0.5);
}

#[test]
fn q7_negative_half_round_trip() {
    let a = Q7::from_f64_bits((-0.5f64).to_bits());
    assert_eq!(a.stored(), -64);
    assert!((f64::from_bits(a.to_f64_bits()) + 0.5).abs() < 1e-6);
    assert!((f32::from_bits(a.to_f32_bits()) + 0.5).abs() < 1e-6);
    assert_eq!(a.to_f64_bits(), (-0.5f64).to_bits());
    assert_eq!(a.to_f32_bits(), (-0.5f32).to_bits());
}

#[test]
fn q7_constants() {
    assert_eq!(MAX_STORED, i8::MAX);
    assert_eq!(MIN_STORED, i8::MIN);
    assert_eq!(FRACTION_BITS, 7);
}

#[test]
fn q7_saturates_at_the_ends_of_the_range() {
    assert_eq!(quantize(1.0), 127);
    assert_eq!(quantize(1.0 + f64::EPSILON), 127);
    assert_eq!(quantize(1e300), 127);
    assert_eq!(quantize(f64::MAX), 127);
    assert_eq!(quantize(f64::INFINITY), 127);
    assert_eq!(quantize(-1.0), -128);
    assert_eq!(quantize(-1.0 - f64::EPSILON), -128);
    assert_eq!(quantize(-1e300), -128);
    assert_eq!(quantize(f64::NEG_INFINITY), -128);
    assert_eq!(quantize32(1.0), 127);
    assert_eq!(quantize32(f32::MAX), 127);
    assert_eq!(quantize32(f32::INFINITY), 127);
    assert_eq!(quantize32(-1.0), -128);
    assert_eq!(quantize32(f32::NEG_INFINITY), -128);
}

#[test]
fn q7_just_inside_the_range_does_not_saturate() {
    let below_one = f64::from_bits(1.0f64.to_bits() - 1);
    assert_eq!(quantize(below_one), 127);
    assert_eq!(quantize(-below_one), -127);
    assert_eq!(quantize(0.9999), 127);
    assert_eq!(quantize(-0.9999), -127);
    let below_one = f32::from_bits(1.0f32.to_bits() - 1);
    assert_eq!(quantize32(below_one), 127);
    assert_eq!(quantize32(-below_one), -127);
}

#[test]
fn q7_truncates_toward_zero() {
    assert_eq!(quantize(0.3), 38);
    assert_eq!(quantize(-0.3), -38);
    assert_eq!(quantize(0.999), 127);
    assert_eq!(quantize(-0.999), -127);
    assert_eq!(quantize(0.0078124), 0);
    assert_eq!(quantize(-0.0078124), 0);
    assert_eq!(quantize(0.0078125), 1);
    assert_eq!(quantize(-0.0078125), -1);
    assert_eq!(quantize(0.0234374), 2);
    assert_eq!(quantize32(0.3), 38);
    assert_eq!(quantize32(-0.3), -38);
}

#[test]
fn q7_of_zeros_tiny_numbers_and_nan() {
    assert_eq!(quantize(0.0), 0);
    assert_eq!(quantize(-0.0), 0);
    assert_eq!(quantize(f64::MIN_POSITIVE), 0);
    assert_eq!(quantize(f64::from_bits(1)), 0);
    assert_eq!(quantize(-f64::from_bits(0xf_ffff_ffff_ffff)), 0);
    assert_eq!(quantize(f64::NAN), 0);
    assert_eq!(quantize(-f64::NAN), 0);
    assert_eq!(quantize(f64::from_bits(0x7ff0_0000_0000_0001)), 0);
    assert_eq!(quantize32(0.0), 0);
    assert_eq!(quantize32(-0.0), 0);
    assert_eq!(quantize32(f32::from_bits(1)), 0);
    assert_eq!(quantize32(f32::MIN_POSITIVE), 0);
    assert_eq!(quantize32(f32::NAN), 0);
}

#[test]
fn q7_dequantize_scales_by_two_to_the_minus_seven() {
    for stored in i8::MIN..=i8::MAX {
        let q = Q7::from_f64_bits((stored as f64 / 128.0).to_bits());
        assert_eq!(q.stored(), stored);
        assert_eq!(f64::from_bits(q.to_f64_bits()), stored as f64 * 2f64.powi(-7));
        assert_eq!(f32::from_bits(q.to_f32_bits()), stored as f32 * 2f32.powi(-7));
        assert_eq!(q.to_f64_bits(), (stored as f64 / 128.0).to_bits());
        assert_eq!(q.to_f32_bits(), (stored as f32 / 128.0).to_bits());
        assert_eq!(f32::from_bits(q.to_f32_bits()) as f64, f64::from_bits(q.to_f64_bits()));
    }
}

#[test]
fn q7_multiples_of_the_step_survive_the_round_trip() {
    for count in -128..=127 {
        let x = count as f64 / 128.0;
        let back = f64::from_bits(Q7::from_f64_bits(x.to_bits()).to_f64_bits());
        assert_eq!(back, x);
        let x = count as f32 / 128.0;
        let back = f32::from_bits(Q7::from_f32_bits(x.to_bits()).to_f32_bits());
        assert_eq!(back, x);
    }
}

#[test]
fn q7_one_is_clamped_to_the_largest_step() {
    let back = f64::from_bits(Q7::from_f64_bits(1.0f64.to_bits()).to_f64_bits());
    assert_eq!(back, 127.0 / 128.0);
}

#[test]
fn q7_requantizing_a_dequantized_value_changes_nothing() {
    for stored in i8::MIN..=i8::MAX {
        let q = Q7::from_f64_bits((stored as f64 / 128.0).to_bits());
        assert_eq!(Q7::from_f64_bits(q.to_f64_bits()), q);
        assert_eq!(Q7::from_f32_bits(q.to_f32_bits()), q);
    }
}

#[test]
fn q7_follows_the_rule_on_a_sweep_of_binary64() {
    let mut bits: u64 = 0;
    loop {
        let x = f64::from_bits(bits);
        assert_eq!(quantize(x), by_the_rule(x), "pattern {:#x}", bits);
        match bits.checked_add(0x0000_3fff_ffff_fff1) {
            Some(next) => bits = next,
            None => break,
        }
    }
}

#[test]
fn q7_follows_the_rule_near_the_range() {
    let mut x = -1.25f64;
    while x <= 1.25 {
        assert_eq!(quantize(x), by_the_rule(x), "number {}", x);
        assert_eq!(quantize32(x as f32), by_the_rule(x as f32 as f64), "number {}", x);
        x += 0.000_123;
    }
}

#[test]
fn q7_follows_the_rule_on_a_sweep_of_binary32() {
    let mut bits: u32 = 0;
    loop {
        let x = f32::from_bits(bits);
        assert_eq!(quantize32(x), by_the_rule(x as f64), "pattern {:#x}", bits);
        match bits.checked_add(30_011) {
            Some(next) => bits = next,
            None => break,
        }
    }
}
