use numeric_codec::binary32;
use numeric_codec::binary64;
use numeric_codec::power::highest_set_bit;

#[test]
fn highest_set_bit_finds_the_leading_bit() {
    assert_eq!(highest_set_bit(1), 0);
    assert_eq!(highest_set_bit(2), 1);
    assert_eq!(highest_set_bit(3), 1);
    assert_eq!(highest_set_bit(128), 7);
    assert_eq!(highest_set_bit(255), 7);
    assert_eq!(highest_set_bit(u64::MAX), 63);
    for position in 0..64 {
        assert_eq!(highest_set_bit(1 << position), position);
        assert_eq!(highest_set_bit((1 << position) | 1), position);
        assert_eq!(highest_set_bit(u64::MAX >> position), 63 - position);
    }
}

#[test]
fn binary32_from_dyadic_is_exact() {
    assert_eq!(binary32::from_dyadic(false, 3, -1), 1.5f32.to_bits());
    assert_eq!(binary32::from_dyadic(true, 3, -1), (-1.5f32).to_bits());
    assert_eq!(binary32::from_dyadic(false, 1, 0), 1.0f32.to_bits());
    assert_eq!(binary32::from_dyadic(false, 0, 0), 0.0f32.to_bits());
    assert_eq!(binary32::from_dyadic(true, 0, -7), (-0.0f32).to_bits());
    assert_eq!(binary32::from_dyadic(false, 1, -126), f32::MIN_POSITIVE.to_bits());
    assert_eq!(binary32::from_dyadic(false, 0xff_ffff, 104), f32::MAX.to_bits());
    assert_eq!(binary32::from_dyadic(false, 0xa9_ae14, -18), 42.42f32.to_bits());
    assert_eq!(binary32::from_dyadic(false, 1, -149), 1);
    assert_eq!(binary32::from_dyadic(true, 0x7f_ffff, -149), 0x807f_ffff);
    assert_eq!(binary32::from_dyadic(false, 0x80_0000, -149), f32::MIN_POSITIVE.to_bits());
    assert_eq!(binary32::from_dyadic(false, 3, -140), (3.0 * 2f32.powi(-140)).to_bits());
    assert_eq!(binary32::from_dyadic(false, 0xff_ffff, -149), f32::from_bits(0x00ff_ffff).to_bits());
    for significand in [1u32, 2, 5, 127, 128, 0x7f_ffff, 0x80_0000, 0xff_ffff] {
        for exponent in [-149, -148, -140, -127, -126, -100, -23, -7, 0, 1, 50, 104] {
            let expected = significand as f32 * 2f32.powi(exponent / 2) * 2f32.powi(exponent - exponent / 2);
            assert_eq!(binary32::from_dyadic(false, significand, exponent), expected.to_bits());
            assert_eq!(binary32::from_dyadic(true, significand, exponent), (-expected).to_bits());
        }
    }
}

#[test]
fn binary64_from_dyadic_is_exact() {
    assert_eq!(binary64::from_dyadic(false, 3, -1), 1.5f64.to_bits());
    assert_eq!(binary64::from_dyadic(true, 3, -1), (-1.5f64).to_bits());
    assert_eq!(binary64::from_dyadic(false, 0, 0), 0.0f64.to_bits());
    assert_eq!(binary64::from_dyadic(true, 0, 0), (-0.0f64).to_bits());
    assert_eq!(binary64::from_dyadic(false, 1, -1022), f64::MIN_POSITIVE.to_bits());
    assert_eq!(binary64::from_dyadic(false, 0x1f_ffff_ffff_ffff, 971), f64::MAX.to_bits());
    assert_eq!(binary64::from_dyadic(false, 1, -1074), 1);
    assert_eq!(binary64::from_dyadic(true, 0xf_ffff_ffff_ffff, -1074), 0x800f_ffff_ffff_ffff);
    assert_eq!(binary64::from_dyadic(false, 0x10_0000_0000_0000, -1074), f64::MIN_POSITIVE.to_bits());
    for significand in [1u64, 2, 5, 127, 128, 0xf_ffff_ffff_ffff, 0x10_0000_0000_0000, 0x1f_ffff_ffff_ffff] {
        for exponent in [-1074, -1073, -1060, -1023, -1022, -500, -52, -7, 0, 1, 500, 971] {
            let expected = significand as f64 * 2f64.powi(exponent / 2) * 2f64.powi(exponent - exponent / 2);
            assert_eq!(binary64::from_dyadic(false, significand, exponent), expected.to_bits());
            assert_eq!(binary64::from_dyadic(true, significand, exponent), (-expected).to_bits());
        }
    }
}

#[test]
fn binary64_fields_concatenate_to_the_pattern() {
    let raw = binary64::decompose(42.42f64.to_bits());
    assert_eq!(raw.sign, 0);
    assert_eq!(raw.exponent as i32 - binary64::BIAS, 5);
    assert_eq!(raw.fraction, 42.42f64.to_bits() & binary64::FRACTION_MAX);
    let mut bits: u64 = 0;
    loop {
        let raw = binary64::decompose(bits);
        assert!(raw.is_well_formed());
        assert_eq!((raw.sign << 63) | (raw.exponent << 52) | raw.fraction, bits);
        assert_eq!(binary64::compose(raw), bits);
        match bits.checked_add(0x0000_7fff_ffff_ffe7) {
            Some(next) => bits = next,
            None => break,
        }
    }
    assert!(!binary64::RawFields { sign: 0, exponent: 0x800, fraction: 0 }.is_well_formed());
}

#[test]
fn widen_keeps_the_number() {
    for x in [0.0f32, -0.0, 1.0, -1.0, 42.42, 0.1, f32::MAX, f32::MIN, f32::MIN_POSITIVE, f32::INFINITY, f32::NEG_INFINITY] {
        assert_eq!(binary64::widen(x.to_bits()), (x as f64).to_bits());
    }
}

#[test]
fn widen_makes_subnormal_numbers_normal() {
    for bits in [1u32, 2, 3, 0x0040_0000, 0x007f_ffff, 0x8000_0001, 0x807f_ffff] {
        let x = f32::from_bits(bits);
        let wide = binary64::widen(bits);
        assert_eq!(wide, (x as f64).to_bits());
        assert!(binary64::decompose(wide).exponent != 0);
    }
}

#[test]
fn widen_on_a_sweep_of_patterns() {
    let mut bits: u32 = 0;
    loop {
        let x = f32::from_bits(bits);
        let wide = binary64::widen(bits);
        if x.is_nan() {
            assert_eq!(wide, binary64::CANONICAL_NAN);
            assert!(f64::from_bits(wide).is_nan());
        } else {
            assert_eq!(wide, (x as f64).to_bits());
        }
        match bits.checked_add(20_011) {
            Some(next) => bits = next,
            None => break,
        }
    }
}

#[test]
fn special_patterns_are_the_standard_ones() {
    assert_eq!(binary32::POSITIVE_INFINITY, f32::INFINITY.to_bits());
    assert_eq!(binary32::NEGATIVE_INFINITY, f32::NEG_INFINITY.to_bits());
    assert!(f32::from_bits(binary32::CANONICAL_NAN).is_nan());
    assert_eq!(binary64::POSITIVE_INFINITY, f64::INFINITY.to_bits());
    assert_eq!(binary64::NEGATIVE_INFINITY, f64::NEG_INFINITY.to_bits());
    assert!(f64::from_bits(binary64::CANONICAL_NAN).is_nan());
    assert_eq!(binary32::BIAS, 127);
    assert_eq!(binary32::RADIX, 2);
    assert_eq!(binary32::MANTISSA_BITS, 23);
    assert_eq!(binary32::EXPONENT_BITS, 8);
    assert_eq!(binary32::IMPLICIT_ONE, 1 << 23);
    assert_eq!(binary64::IMPLICIT_ONE, 1 << 52);
}
