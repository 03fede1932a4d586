//! Q7: a fixed-point format that packs a number of the range from -1 to 1
//! into one signed byte, at a resolution of 2^-7.
//!
//! The byte holds the number times 128. Quantizing saturates: a number
//! outside the range is clamped to the nearest end, never refused.
//! Dequantizing is a pure scaling by 2^-7 and loses nothing.
use vstd::arithmetic::div_mod::{
    lemma_basic_div, lemma_div_by_multiple, lemma_div_multiples_vanish_quotient,
};
use vstd::arithmetic::power2::{lemma2_to64, lemma2_to64_rest, lemma_pow2_adds, pow2};
use vstd::bits::lemma_u64_shr_is_div;
use vstd::prelude::*;
use crate::binary32;
use crate::binary64;
use crate::power::{lemma_pow2_monotone, lemma_quotient_of_scaled};

verus! {

/// Number of bits behind the binary point.
pub const FRACTION_BITS: u32 = 7;

/// Largest stored integer: it stands for 127/128, and for every number from
/// one up.
pub const MAX_STORED: i8 = 127;

/// Smallest stored integer: it stands for minus one, and for every number
/// below.
pub const MIN_STORED: i8 = -128;

/// A number of the range from -1 to 1 in one signed byte. It is made by
/// quantizing only, and never changes afterwards.
#[derive(Clone, Copy, Debug, PartialEq, Eq, Structural)]
pub struct Q7(i8);

impl View for Q7 {
    type V = int;

    /// The stored integer: the number times 128.
    closed spec fn view(&self) -> int {
        self.0 as int
    }
}

/// The quotient of two integers, rounded toward zero.
pub open spec fn truncating_quotient(numerator: int, denominator: int) -> int {
    if numerator >= 0 {
        numerator / denominator
    } else {
        -((-numerator) / denominator)
    }
}

/// The quantizing rule on a number counted in any unit, where `one` is the
/// number one in that unit.
pub open spec fn saturating_scale(scaled: int, one: int) -> int {
    if scaled >= one {
        MAX_STORED as int
    } else if scaled <= -one {
        MIN_STORED as int
    } else {
        truncating_quotient(scaled * 128, one)
    }
}

/// The stored integer that a binary64 pattern quantizes to: the largest one
/// from the number one up, the smallest one from minus one down, and in
/// between the number times 128 with its fraction cut off. Infinities count
/// as beyond the range, and a NaN gives zero.
pub open spec fn quantized64(bits: u64) -> int {
    if binary64::is_nan(bits) {
        0
    } else if binary64::is_at_least_one(bits) {
        MAX_STORED as int
    } else if binary64::is_at_most_minus_one(bits) {
        MIN_STORED as int
    } else {
        truncating_quotient(binary64::scaled_value(bits) * 128, binary64::one() as int)
    }
}

/// The stored integer that a binary32 pattern quantizes to, by the same
/// rule.
pub open spec fn quantized32(bits: u32) -> int {
    if binary32::is_nan(bits) {
        0
    } else if binary32::is_at_least_one(bits) {
        MAX_STORED as int
    } else if binary32::is_at_most_minus_one(bits) {
        MIN_STORED as int
    } else {
        truncating_quotient(binary32::scaled_value(bits) * 128, binary32::one() as int)
    }
}

/// The number that a stored integer stands for, in units of 2^-1074.
pub open spec fn dequantized64(stored: int) -> int {
    stored * pow2(1067)
}

/// The number that a stored integer stands for, in units of 2^-149.
pub open spec fn dequantized32(stored: int) -> int {
    stored * pow2(142)
}

/// Products of nonnegative numbers keep the order of their factors.
proof fn lemma_product_order(a: int, b: int, c: int, d: int)
    by (nonlinear_arith)
    requires
        0 <= a <= c,
        0 <= b <= d,
    ensures
        a * b <= c * d,
        a < c && 0 < b ==> a * b < c * b,
{
}

/// Where the number lies with respect to one, read off the exponent field,
/// and the whole part of a number below one times 128, read off the
/// mantissa.
proof fn lemma_magnitude_times_128(raw: binary64::RawFields)
    requires
        raw.wf(),
        raw.is_finite(),
    ensures
        binary64::one() > 0,
        raw.exponent >= 1023 <==> raw.magnitude() >= binary64::one(),
        raw.exponent < 1016 ==> (raw.magnitude() as int * 128) / (binary64::one() as int) == 0,
        1016 <= raw.exponent < 1023 ==> (raw.magnitude() as int * 128) / (binary64::one() as int) == (
        binary64::IMPLICIT_ONE + raw.fraction) as int / (pow2((1068 - raw.exponent) as nat) as int),
{
    lemma2_to64();
    lemma2_to64_rest();
    let one = pow2(1074);
    if raw.exponent == 0 {
        let f = raw.fraction as nat;
        lemma_pow2_monotone(52, 1074);
        lemma_pow2_monotone(52, 1067);
        lemma_quotient_of_scaled(f, 7, 1074);
        lemma_basic_div(f as int, pow2(1067) as int);
    } else {
        let m = (binary64::IMPLICIT_ONE + raw.fraction) as nat;
        let e = (raw.exponent - 1) as nat;
        let scale = pow2(e);
        lemma_pow2_adds(52, 1022);
        lemma_pow2_adds(53, e);
        lemma_pow2_adds(e, 7);
        lemma_pow2_monotone(0, e);
        if raw.exponent >= 1023 {
            lemma_pow2_monotone(1022, e);
            lemma_product_order(pow2(52) as int, pow2(1022) as int, m as int, scale as int);
        } else {
            lemma_pow2_monotone(e + 53, 1074);
            lemma_product_order(m as int, scale as int, pow2(53) as int, scale as int);
            assert((m * scale) * 128 == m * (scale * 128)) by (nonlinear_arith);
            lemma_quotient_of_scaled(m, e + 7, 1074);
            if raw.exponent < 1016 {
                lemma_pow2_monotone(53, (1068 - raw.exponent) as nat);
                lemma_basic_div(m as int, pow2((1068 - raw.exponent) as nat) as int);
            }
        }
    }
}

/// A negated factor negates the product.
proof fn lemma_negated_product(magnitude: int, factor: int)
    by (nonlinear_arith)
    ensures
        (-magnitude) * factor == -(magnitude * factor),
{
}

/// Counting a number and the number one in a unit that is `factor` times
/// finer changes nothing about the stored integer.
proof fn lemma_saturating_scale_refines(scaled: int, one: int, factor: int)
    requires
        0 < one,
        0 < factor,
    ensures
        saturating_scale(scaled * factor, one * factor) == saturating_scale(scaled, one),
        (scaled * factor >= one * factor) == (scaled >= one),
        (scaled * factor <= -(one * factor)) == (scaled <= -one),
{
    assert((scaled >= one) == (scaled * factor >= one * factor)) by (nonlinear_arith)
        requires
            0 < factor,
    ;
    assert((scaled <= -one) == (scaled * factor <= -(one * factor))) by (nonlinear_arith)
        requires
            0 < factor,
    ;
    assert(((scaled * factor) * 128 >= 0) == (scaled * 128 >= 0)) by (nonlinear_arith)
        requires
            0 < factor,
    ;
    assert((scaled * factor) * 128 == factor * (scaled * 128)) by (nonlinear_arith);
    assert(-((scaled * factor) * 128) == factor * (-(scaled * 128))) by (nonlinear_arith);
    assert(one * factor == factor * one) by (nonlinear_arith);
    if scaled * 128 >= 0 {
        lemma_div_multiples_vanish_quotient(factor, scaled * 128, one);
    } else {
        lemma_div_multiples_vanish_quotient(factor, -(scaled * 128), one);
    }
}

/// A whole count of steps, from -128 to 127 of them, where 128 steps make
/// one, has that count as its stored integer.
proof fn lemma_saturating_scale_of_count(count: int, step: int)
    requires
        MIN_STORED <= count <= MAX_STORED,
        0 < step,
    ensures
        saturating_scale(count * step, 128 * step) == count,
{
    let one = 128 * step;
    assert((count * step >= one) == (count >= 128)) by (nonlinear_arith)
        requires
            0 < step,
            one == 128 * step,
    ;
    assert((count * step <= -one) == (count <= -128)) by (nonlinear_arith)
        requires
            0 < step,
            one == 128 * step,
    ;
    assert(((count * step) * 128 >= 0) == (count >= 0)) by (nonlinear_arith)
        requires
            0 < step,
    ;
    assert((count * step) * 128 == count * one) by (nonlinear_arith)
        requires
            one == 128 * step,
    ;
    assert(-((count * step) * 128) == (-count) * one) by (nonlinear_arith)
        requires
            one == 128 * step,
    ;
    if count >= 0 {
        lemma_div_by_multiple(count, one);
    } else {
        lemma_div_by_multiple(-count, one);
    }
}

/// A binary64 number that is a whole count of 128ths, from -128 to 127 of
/// them, survives quantizing and dequantizing unchanged: its stored integer
/// is that count, and the count stands for the number itself.
pub proof fn lemma_round_trip64(bits: u64, count: int)
    requires
        binary64::is_finite(bits),
        MIN_STORED <= count <= MAX_STORED,
        binary64::scaled_value(bits) == dequantized64(count),
    ensures
        quantized64(bits) == count,
        dequantized64(quantized64(bits)) == binary64::scaled_value(bits),
{
    lemma_pow2_adds(7, 1067);
    lemma_pow2_monotone(0, 1067);
    lemma2_to64();
    lemma_saturating_scale_of_count(count, pow2(1067) as int);
}

/// A binary32 number that is a whole count of 128ths, from -128 to 127 of
/// them, survives quantizing and dequantizing unchanged.
pub proof fn lemma_round_trip32(bits: u32, count: int)
    requires
        binary32::is_finite(bits),
        MIN_STORED <= count <= MAX_STORED,
        binary32::scaled_value(bits) == dequantized32(count),
    ensures
        quantized32(bits) == count,
        dequantized32(quantized32(bits)) == binary32::scaled_value(bits),
{
    lemma_pow2_adds(7, 142);
    lemma_pow2_monotone(0, 142);
    lemma2_to64();
    lemma_saturating_scale_of_count(count, pow2(142) as int);
}

/// The binary32 pattern and the binary64 pattern of a stored integer stand
/// for the same number: narrowing loses nothing.
pub proof fn lemma_dequantized_agree(stored: int)
    ensures
        dequantized64(stored) == dequantized32(stored) * binary64::widening_factor(),
{
    lemma_pow2_adds(142, 925);
    assert(stored * (pow2(142) * pow2(925)) == (stored * pow2(142)) * pow2(925))
        by (nonlinear_arith);
}

/// Widening a binary32 pattern does not change what it quantizes to.
pub proof fn lemma_quantized_widened(bits: u32, wide: u64)
    requires
        binary64::is_nan(wide) == binary32::is_nan(bits),
        binary64::is_infinite(wide) == binary32::is_infinite(bits),
        !binary32::is_nan(bits) ==> binary64::is_negative(wide) == binary32::is_negative(bits),
        binary32::is_finite(bits) ==> binary64::scaled_value(wide) == binary32::scaled_value(bits)
            * binary64::widening_factor(),
    ensures
        quantized64(wide) == quantized32(bits),
        binary64::is_at_least_one(wide) == binary32::is_at_least_one(bits),
        binary64::is_at_most_minus_one(wide) == binary32::is_at_most_minus_one(bits),
{
    binary32::lemma_raw_fields_concatenate(bits);
    binary64::lemma_raw_fields_concatenate(wide);
    lemma_pow2_adds(149, 925);
    lemma_pow2_monotone(0, 149);
    lemma_pow2_monotone(0, 925);
    if binary32::is_finite(bits) {
        lemma_saturating_scale_refines(
            binary32::scaled_value(bits),
            binary32::one() as int,
            binary64::widening_factor() as int,
        );
    }
}

impl Q7 {
    /// The stored integer fits a signed byte.
    pub proof fn lemma_stored_range(self)
        ensures
            MIN_STORED <= self@ <= MAX_STORED,
    {
    }

    /// The stored integer.
    pub fn stored(self) -> (value: i8)
        ensures
            value == self@,
    {
        self.0
    }

    /// Quantizes the number that a binary64 pattern stands for.
    ///
    /// A number from one up gives the largest stored integer, a number from
    /// minus one down the smallest one. In between, the stored integer is
    /// the number times 128 with its fraction cut off, toward zero.
    pub fn from_f64_bits(bits: u64) -> (q: Q7)
        ensures
            q@ == quantized64(bits),
            binary64::is_at_least_one(bits) ==> q@ == MAX_STORED,
            binary64::is_at_most_minus_one(bits) <==> q@ == MIN_STORED,
    {
        let raw = binary64::decompose(bits);
        if raw.exponent == binary64::EXPONENT_MAX {
            return if raw.fraction != 0 {
                Q7(0)
            } else if raw.sign == 0 {
                Q7(MAX_STORED)
            } else {
                Q7(MIN_STORED)
            };
        }
        proof {
            lemma_magnitude_times_128(raw);
            lemma_negated_product(raw.magnitude() as int, 128);
        }
        if raw.exponent >= binary64::BIAS as u64 {
            if raw.sign == 0 {
                Q7(MAX_STORED)
            } else {
                Q7(MIN_STORED)
            }
        } else if raw.exponent < binary64::BIAS as u64 - FRACTION_BITS as u64 {
            Q7(0)
        } else {
            let mantissa: u64 = binary64::IMPLICIT_ONE + raw.fraction;
            let shift: u64 = binary64::MANTISSA_BITS as u64 + binary64::BIAS as u64
                - FRACTION_BITS as u64 - raw.exponent;
            proof {
                lemma_u64_shr_is_div(mantissa, shift);
                assert(mantissa < 0x20_0000_0000_0000 && 46 <= shift <= 52 ==> (mantissa >> shift)
                    <= 127) by (bit_vector);
            }
            let whole: i8 = (mantissa >> shift) as i8;
            if raw.sign == 0 {
                Q7(whole)
            } else {
                Q7(-whole)
            }
        }
    }

    /// Quantizes the number that a binary32 pattern stands for: the pattern
    /// is widened to binary64, which loses nothing, and quantized there.
    pub fn from_f32_bits(bits: u32) -> (q: Q7)
        ensures
            q@ == quantized32(bits),
            binary32::is_at_least_one(bits) ==> q@ == MAX_STORED,
            binary32::is_at_most_minus_one(bits) <==> q@ == MIN_STORED,
    {
        let wide = binary64::widen(bits);
        proof {
            lemma_quantized_widened(bits, wide);
        }
        Q7::from_f64_bits(wide)
    }

    /// The binary64 pattern of the number that the stored integer stands
    /// for: the stored integer times 2^-7, exactly. Quantizing that pattern
    /// gives the stored integer back.
    pub fn to_f64_bits(self) -> (bits: u64)
        ensures
            binary64::is_finite(bits),
            binary64::is_negative(bits) == (self@ < 0),
            binary64::scaled_value(bits) == dequantized64(self@),
            quantized64(bits) == self@,
    {
        let stored: i32 = self.0 as i32;
        let negative = stored < 0;
        let magnitude: u64 = if negative {
            (-stored) as u64
        } else {
            stored as u64
        };
        proof {
            lemma_negated_product(magnitude as int, pow2(1067) as int);
        }
        let bits = binary64::from_dyadic(negative, magnitude, -(FRACTION_BITS as i32));
        proof {
            lemma_round_trip64(bits, self@);
        }
        bits
    }

    /// The binary32 pattern of the number that the stored integer stands
    /// for. Seven fraction bits fit the narrower mantissa with room to
    /// spare, so this pattern too is exact.
    pub fn to_f32_bits(self) -> (bits: u32)
        ensures
            binary32::is_finite(bits),
            binary32::is_negative(bits) == (self@ < 0),
            binary32::scaled_value(bits) == dequantized32(self@),
            quantized32(bits) == self@,
    {
        let stored: i32 = self.0 as i32;
        let negative = stored < 0;
        let magnitude: u32 = if negative {
            (-stored) as u32
        } else {
            stored as u32
        };
        proof {
            lemma_negated_product(magnitude as int, pow2(142) as int);
        }
        let bits = binary32::from_dyadic(negative, magnitude, -(FRACTION_BITS as i32));
        proof {
            lemma_round_trip32(bits, self@);
        }
        bits
    }
}

} // verus!
