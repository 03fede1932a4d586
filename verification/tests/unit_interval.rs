use numeric_codec::unit_interval::{unit_interval_from_byte, unit_interval_pattern, BYTE_SHIFT, HALF};

fn as_number(byte: u8) -> f32 {
    f32::from_bits(unit_interval_from_byte(byte))
}

#[test]
fn unit_interval_of_the_lowest_byte_is_zero() {
    assert_eq!(unit_interval_from_byte(0x00), 0);
    assert_eq!(as_number(0x00), 0.0);
    assert!(as_number(0x00).is_sign_positive());
}

#[test]
fn unit_interval_of_the_highest_byte_is_below_one() {
    let top = as_number(0xff);
    assert!(top < 1.0);
    assert!(top > 0.99);
    assert_eq!(top, 0.99609375);
}

#[test]
fn unit_interval_of_the_middle_byte_is_near_the_middle() {
    let middle = as_number(0x7f);
    assert_eq!(middle, 0.49609375);
    assert!((middle - as_number(0xff) / 2.0).abs() < 0.002);
}

#[test]
fn unit_interval_pattern_holds_the_byte_above_one_half() {
    assert_eq!(HALF, 0.5f32.to_bits());
    assert_eq!(HALF, 0b0_01111110_00000000000000000000000);
    assert_eq!(BYTE_SHIFT, 15);
    assert_eq!(unit_interval_pattern(0x00), 0x3f00_0000);
    assert_eq!(unit_interval_pattern(0x7f), 0x3f3f_8000);
    assert_eq!(unit_interval_pattern(0xff), 0x3f7f_8000);
    for byte in 0..=u8::MAX {
        let m = f32::from_bits(unit_interval_pattern(byte));
        assert!(0.5 <= m && m < 1.0);
        assert_eq!(m, 0.5 + byte as f32 / 512.0);
    }
}

#[test]
fn unit_interval_is_twice_what_the_pattern_has_above_one_half() {
    for byte in 0..=u8::MAX {
        let m = f32::from_bits(unit_interval_pattern(byte));
        assert_eq!(as_number(byte), 2.0 * (m - 0.5));
        assert_eq!(unit_interval_from_byte(byte), (2.0 * (m - 0.5)).to_bits());
    }
}

#[test]
fn unit_interval_counts_the_256th_parts() {
    for byte in 0..=u8::MAX {
        assert_eq!(as_number(byte), byte as f32 / 256.0);
        assert!(0.0 <= as_number(byte) && as_number(byte) < 1.0);
    }
}

#[test]
fn unit_interval_grows_with_the_byte() {
    for byte in 0..u8::MAX {
        assert!(as_number(byte) < as_number(byte + 1));
    }
}
