//! Spreads a byte over the numbers from zero up to, but not including, one,
//! without dividing: the byte is placed at the top of the mantissa of a
//! binary32 pattern whose exponent is fixed.
use vstd::arithmetic::power2::{
    lemma2_to64, lemma_pow2_adds, lemma_pow2_pos, lemma_pow2_unfold, pow2,
};
use vstd::prelude::*;
use crate::binary32::{
    decompose, from_dyadic, is_finite, is_negative, lemma_pattern_has_fields, one, raw_fields,
    scaled_value, RawFields, MANTISSA_BITS,
};

verus! {

/// The pattern of one half: sign zero, exponent field one below the bias,
/// an empty fraction.
pub const HALF: u32 = 0x3f00_0000;

/// How far a byte is shifted to fill the eight highest fraction bits.
pub const BYTE_SHIFT: u32 = 15;

/// The pattern of one half with `byte` in its eight highest fraction bits.
pub open spec fn pattern_of_byte(byte: u8) -> u32 {
    HALF | ((byte as u32) << 15)
}

/// The fields of the pattern: the byte sits at the top of the fraction.
proof fn lemma_pattern_of_byte(byte: u8)
    ensures
        raw_fields(pattern_of_byte(byte)) == (RawFields {
            sign: 0,
            exponent: 126,
            fraction: (byte * 0x8000) as u32,
        }),
        byte * 0x8000 <= 0x7f_8000,
{
    let raw = RawFields { sign: 0, exponent: 126, fraction: (byte * 0x8000) as u32 };
    lemma_pattern_has_fields(raw);
    let wide = byte as u32;
    assert(wide <= 0xff ==> 0x3f00_0000u32 | (wide << 15) == 0x3f00_0000 + wide * 0x8000)
        by (bit_vector);
}

/// The arithmetic of the mapping, with `low`, `high` and `whole` standing
/// for 2^-24, 2^-23 and the number one.
proof fn lemma_half_and_fraction(byte: int, fraction: int, low: int, high: int, whole: int)
    by (nonlinear_arith)
    requires
        0 <= byte <= 255,
        fraction == byte * 0x8000,
        0 < low,
        high == 2 * low,
        whole == 0x100_0000 * low,
    ensures
        whole <= 2 * ((0x80_0000 + fraction) * low) < 2 * whole,
        512 * ((0x80_0000 + fraction) * low) == (256 + byte) * whole,
        fraction * high == 2 * ((0x80_0000 + fraction) * low) - whole,
        256 * (fraction * high) == byte * whole,
        0 <= fraction * high < whole,
{
}

/// The three powers of two that the mapping speaks of, in the value model's
/// unit.
proof fn lemma_unit_interval_powers()
    ensures
        0 < pow2(125),
        pow2(126) == 2 * pow2(125),
        one() == 0x100_0000 * pow2(125),
{
    lemma2_to64();
    lemma_pow2_unfold(126);
    lemma_pow2_adds(24, 125);
    lemma_pow2_pos(125);
}

/// Builds the pattern of one half with `byte` in its eight highest fraction
/// bits. The pattern stands for a half plus the byte's 512th parts: a number
/// from a half up to, but not including, one.
pub fn unit_interval_pattern(byte: u8) -> (bits: u32)
    ensures
        bits == pattern_of_byte(byte),
        raw_fields(bits) == (RawFields {
            sign: 0,
            exponent: 126,
            fraction: (byte * 0x8000) as u32,
        }),
        512 * scaled_value(bits) == (256 + byte) * one(),
        one() <= 2 * scaled_value(bits) < 2 * one(),
{
    proof {
        lemma_pattern_of_byte(byte);
        lemma_unit_interval_powers();
        lemma_half_and_fraction(
            byte as int,
            byte * 0x8000,
            pow2(125) as int,
            pow2(126) as int,
            one() as int,
        );
    }
    HALF | ((byte as u32) << BYTE_SHIFT)
}

/// Maps a byte to the pattern of the byte's 256th parts: zero for the byte
/// zero, and a number just below one for the byte 255.
///
/// The number is twice what the pattern of [`unit_interval_pattern`] has
/// above one half. That pattern's mantissa is one plus its fraction field
/// and its exponent is -1, so what it has above one half is the fraction
/// field in units of 2^-24, and twice that is the fraction field in units
/// of 2^-23.
pub fn unit_interval_from_byte(byte: u8) -> (bits: u32)
    ensures
        is_finite(bits),
        !is_negative(bits),
        scaled_value(bits) == 2 * scaled_value(pattern_of_byte(byte)) - one(),
        256 * scaled_value(bits) == byte * one(),
        0 <= scaled_value(bits) < one(),
{
    let raw = decompose(unit_interval_pattern(byte));
    proof {
        lemma_pattern_of_byte(byte);
        lemma_unit_interval_powers();
        lemma_half_and_fraction(
            byte as int,
            byte * 0x8000,
            pow2(125) as int,
            pow2(126) as int,
            one() as int,
        );
    }
    from_dyadic(false, raw.fraction, -(MANTISSA_BITS as i32))
}

} // verus!
