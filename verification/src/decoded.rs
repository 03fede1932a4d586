//! The numeric meaning of the three raw fields, and the way back from the
//! decoded parts to a pattern.
//!
//! A decoded number keeps its three parts exact. The multiplier is +1 or -1.
//! The exponent is the power to which the radix is raised. The mantissa is
//! counted in units of 2^-23, so a normal number's mantissa, which lies
//! between one and two, is held as an integer between 2^23 and 2^24.
use vstd::arithmetic::power2::{lemma2_to64, pow2};
use vstd::bits::lemma_u32_shl_is_mul;
use vstd::prelude::*;
use crate::binary32::{
    compose, lemma_pattern_has_fields, lemma_raw_fields_concatenate, is_nan, raw_fields,
    decompose, RawFields, BIAS, CANONICAL_NAN, EXPONENT_MAX, FRACTION_MAX, IMPLICIT_ONE,
    MANTISSA_BITS, MAX_EXPONENT, MIN_EXPONENT,
};

verus! {

/// The four kinds of binary32 pattern. Zeros count as subnormal: their
/// exponent field is zero like that of every subnormal number.
#[derive(Clone, Copy, Debug, PartialEq, Eq, Structural)]
pub enum Category {
    Normal,
    Subnormal,
    Infinity,
    NaN,
}

/// The decoded parts of a pattern, by category. An infinity keeps only its
/// sign and a NaN keeps nothing, so neither can be mistaken for a number.
#[derive(Clone, Copy, Debug, PartialEq, Eq, Structural)]
pub enum Decoded {
    Normal { multiplier: i32, exponent: i32, mantissa: u32 },
    Subnormal { multiplier: i32, exponent: i32, mantissa: u32 },
    Infinity { multiplier: i32 },
    NaN,
}

/// The multiplier that a sign bit stands for: -1 raised to that bit.
pub open spec fn unit_multiplier(sign: u32) -> int {
    if sign == 0 {
        1
    } else {
        -1
    }
}

/// The sign bit that stands for a multiplier.
pub open spec fn sign_bit(multiplier: int) -> u32 {
    if multiplier < 0 {
        1
    } else {
        0
    }
}

impl Decoded {
    /// The parts lie in the ranges of their category: a unit multiplier, a
    /// normal mantissa from one up to two with an exponent that the format
    /// can store, a subnormal mantissa below one at the lowest exponent.
    pub open spec fn wf(self) -> bool {
        match self {
            Decoded::Normal { multiplier, exponent, mantissa } => {
                &&& multiplier == 1 || multiplier == -1
                &&& MIN_EXPONENT <= exponent <= MAX_EXPONENT
                &&& IMPLICIT_ONE <= mantissa < 2 * IMPLICIT_ONE
            },
            Decoded::Subnormal { multiplier, exponent, mantissa } => {
                &&& multiplier == 1 || multiplier == -1
                &&& exponent == MIN_EXPONENT
                &&& mantissa < IMPLICIT_ONE
            },
            Decoded::Infinity { multiplier } => multiplier == 1 || multiplier == -1,
            Decoded::NaN => true,
        }
    }

    /// The parts stand for a number.
    pub open spec fn is_finite(self) -> bool {
        self is Normal || self is Subnormal
    }

    /// The mantissa of a number, in units of 2^-23.
    pub open spec fn mantissa(self) -> nat {
        match self {
            Decoded::Normal { mantissa, .. } => mantissa as nat,
            Decoded::Subnormal { mantissa, .. } => mantissa as nat,
            _ => 0,
        }
    }

    /// The category that the parts belong to.
    pub open spec fn spec_category(self) -> Category {
        match self {
            Decoded::Normal { .. } => Category::Normal,
            Decoded::Subnormal { .. } => Category::Subnormal,
            Decoded::Infinity { .. } => Category::Infinity,
            Decoded::NaN => Category::NaN,
        }
    }

    /// The category that the parts belong to.
    #[verifier::when_used_as_spec(spec_category)]
    pub fn category(self) -> (category: Category)
        ensures
            category == self.spec_category(),
    {
        match self {
            Decoded::Normal { .. } => Category::Normal,
            Decoded::Subnormal { .. } => Category::Subnormal,
            Decoded::Infinity { .. } => Category::Infinity,
            Decoded::NaN => Category::NaN,
        }
    }

    /// Tells whether the parts lie in the ranges of their category.
    pub fn is_well_formed(&self) -> (ok: bool)
        ensures
            ok == self.wf(),
    {
        match *self {
            Decoded::Normal { multiplier, exponent, mantissa } => {
                (multiplier == 1 || multiplier == -1) && MIN_EXPONENT <= exponent && exponent
                    <= MAX_EXPONENT && IMPLICIT_ONE <= mantissa && mantissa < 2 * IMPLICIT_ONE
            },
            Decoded::Subnormal { multiplier, exponent, mantissa } => {
                (multiplier == 1 || multiplier == -1) && exponent == MIN_EXPONENT && mantissa
                    < IMPLICIT_ONE
            },
            Decoded::Infinity { multiplier } => multiplier == 1 || multiplier == -1,
            Decoded::NaN => true,
        }
    }

    /// The product of the three parts of a number, in units of 2^-149: the
    /// multiplier, times the mantissa in units of 2^-23, times the radix
    /// raised to the exponent in units of 2^-126.
    pub open spec fn scaled_value(self) -> int {
        match self {
            Decoded::Normal { multiplier, exponent, mantissa } => multiplier * (mantissa * pow2(
                (exponent - MIN_EXPONENT) as nat,
            )),
            Decoded::Subnormal { multiplier, exponent, mantissa } => multiplier * (mantissa * pow2(
                (exponent - MIN_EXPONENT) as nat,
            )),
            _ => 0,
        }
    }
}

/// What the raw fields mean.
///
/// An all-ones exponent field marks an infinity when the fraction is zero
/// and a NaN otherwise. A zero exponent field marks a subnormal number: its
/// mantissa is the fraction alone and its exponent is the lowest one. Any
/// other number has the implicit one in front of its fraction, and the bias
/// taken off its exponent field.
pub open spec fn decoded(raw: RawFields) -> Decoded {
    if raw.exponent == EXPONENT_MAX {
        if raw.fraction == 0 {
            Decoded::Infinity { multiplier: unit_multiplier(raw.sign) as i32 }
        } else {
            Decoded::NaN
        }
    } else if raw.exponent == 0 {
        Decoded::Subnormal {
            multiplier: unit_multiplier(raw.sign) as i32,
            exponent: MIN_EXPONENT,
            mantissa: raw.fraction,
        }
    } else {
        Decoded::Normal {
            multiplier: unit_multiplier(raw.sign) as i32,
            exponent: (raw.exponent - BIAS) as i32,
            mantissa: (IMPLICIT_ONE + raw.fraction) as u32,
        }
    }
}

/// Multiplying by a unit multiplier keeps or flips the sign, and multiplying
/// by one changes nothing.
proof fn lemma_unit_product(multiplier: int, x: int, one: int)
    by (nonlinear_arith)
    requires
        one == 1,
    ensures
        multiplier == 1 ==> multiplier * x == x,
        multiplier == -1 ==> multiplier * x == -x,
        x * one == x,
{
}

/// The decoded parts of a number are well formed, and their product is the
/// number's value.
pub proof fn lemma_decoded_value(raw: RawFields)
    requires
        raw.wf(),
        raw.is_finite(),
    ensures
        decoded(raw).wf(),
        decoded(raw).is_finite(),
        decoded(raw).scaled_value() == raw.scaled_value(),
{
    lemma2_to64();
    let multiplier = unit_multiplier(raw.sign);
    if raw.exponent == 0 {
        lemma_unit_product(multiplier, raw.fraction * pow2(0), pow2(0) as int);
        lemma_unit_product(multiplier, raw.fraction as int, pow2(0) as int);
    } else {
        let mantissa = IMPLICIT_ONE + raw.fraction;
        lemma_unit_product(multiplier, mantissa * pow2((raw.exponent - 1) as nat), 1);
    }
}

/// The part of `fraction` that lies below bit `count`.
pub open spec fn low_bits(fraction: u32, count: u32) -> u32 {
    fraction & (((1u32 << count) - 1) as u32)
}

/// Nothing lies below bit zero.
proof fn lemma_low_bits_none(fraction: u32)
    by (bit_vector)
    ensures
        low_bits(fraction, 0) == 0,
{
}

/// Taking one more bit into the low part adds that bit's mask where the bit
/// is set, and nothing where it is clear.
proof fn lemma_low_bits_step(fraction: u32, index: u32)
    by (bit_vector)
    requires
        index < 23,
    ensures
        (1u32 << index) <= 0x40_0000,
        low_bits(fraction, index) < (1u32 << index),
        fraction & (1u32 << index) == 0 ==> low_bits(fraction, (index + 1) as u32) == low_bits(
            fraction,
            index,
        ),
        fraction & (1u32 << index) != 0 ==> low_bits(fraction, (index + 1) as u32) == low_bits(
            fraction,
            index,
        ) + (1u32 << index),
{
}

/// All twenty-three low bits of a fraction are the fraction.
proof fn lemma_low_bits_all(fraction: u32)
    by (bit_vector)
    requires
        fraction <= 0x7f_ffff,
    ensures
        low_bits(fraction, 23) == fraction,
{
}

/// What the mantissa has in front of the fraction, in units of 2^-23: the
/// implicit one of a normal number, and nothing for a subnormal one.
pub open spec fn leading_one(raw: RawFields) -> nat {
    if raw.exponent == 0 {
        0
    } else {
        IMPLICIT_ONE as nat
    }
}

/// The sum of the weights of the set bits among the lowest `count` bits of
/// `fraction`. Bit `i` weighs 2^(i-23); in the mantissa's unit of 2^-23 that
/// is 2^i.
pub open spec fn weighted_bits(fraction: u32, count: nat) -> nat
    decreases count,
{
    if count == 0 {
        0
    } else {
        let index = (count - 1) as nat;
        let weight = if fraction & (1u32 << index) != 0 {
            pow2(index)
        } else {
            0
        };
        weighted_bits(fraction, index) + weight
    }
}

/// The weights of the set bits below bit `count` sum to the part of the
/// fraction that lies below that bit.
pub proof fn lemma_weighted_bits_are_low_bits(fraction: u32, count: nat)
    requires
        count <= MANTISSA_BITS,
    ensures
        weighted_bits(fraction, count) == low_bits(fraction, count as u32),
    decreases count,
{
    if count == 0 {
        lemma_low_bits_none(fraction);
    } else {
        let index = (count - 1) as u32;
        lemma_weighted_bits_are_low_bits(fraction, index as nat);
        lemma_low_bits_step(fraction, index);
        lemma2_to64();
        lemma_u32_shl_is_mul(1, index);
    }
}

/// The weights of all set bits of a fraction sum to the fraction itself, so
/// a mantissa summed bit by bit is the fraction with the implicit one, if
/// there is one, in front.
pub proof fn lemma_weighted_bits_are_the_fraction(fraction: u32)
    requires
        fraction <= FRACTION_MAX,
    ensures
        weighted_bits(fraction, MANTISSA_BITS as nat) == fraction,
{
    lemma_weighted_bits_are_low_bits(fraction, MANTISSA_BITS as nat);
    lemma_low_bits_all(fraction);
}

/// Decodes raw fields into their numeric meaning.
///
/// The mantissa is summed bit by bit, from the least significant fraction
/// bit to the most significant one. Bit `i` weighs 2^(i-23), which in the
/// mantissa's unit is the bit's own mask. The sum starts at the implicit one
/// for a normal number and at zero for a subnormal one. Infinities and NaNs
/// never reach the sum.
pub fn decode(raw: RawFields) -> (d: Decoded)
    requires
        raw.wf(),
    ensures
        d == decoded(raw),
        d.wf(),
        raw.exponent == EXPONENT_MAX && raw.fraction == 0 ==> d == (Decoded::Infinity {
            multiplier: unit_multiplier(raw.sign) as i32,
        }),
        raw.exponent == EXPONENT_MAX && raw.fraction != 0 ==> d == Decoded::NaN,
        raw.exponent == 0 ==> d == (Decoded::Subnormal {
            multiplier: unit_multiplier(raw.sign) as i32,
            exponent: MIN_EXPONENT,
            mantissa: raw.fraction,
        }),
        raw.is_finite() ==> d.mantissa() == leading_one(raw) + weighted_bits(
            raw.fraction,
            MANTISSA_BITS as nat,
        ),
        raw.is_finite() ==> d.is_finite() && d.scaled_value() == raw.scaled_value(),
{
    let multiplier: i32 = if raw.sign == 0 {
        1
    } else {
        -1
    };
    if raw.exponent == EXPONENT_MAX {
        if raw.fraction == 0 {
            Decoded::Infinity { multiplier }
        } else {
            Decoded::NaN
        }
    } else {
        let subnormal = raw.exponent == 0;
        let exponent: i32 = if subnormal {
            MIN_EXPONENT
        } else {
            raw.exponent as i32 - BIAS
        };
        let start: u32 = if subnormal {
            0
        } else {
            IMPLICIT_ONE
        };
        let mut mantissa: u32 = start;
        let mut index: u32 = 0;
        while index < MANTISSA_BITS
            invariant
                index <= MANTISSA_BITS,
                start <= IMPLICIT_ONE,
                mantissa == start + weighted_bits(raw.fraction, index as nat),
            decreases MANTISSA_BITS - index,
        {
            proof {
                lemma_weighted_bits_are_low_bits(raw.fraction, index as nat);
                lemma_weighted_bits_are_low_bits(raw.fraction, (index + 1) as nat);
                lemma_low_bits_step(raw.fraction, index);
            }
            let mask: u32 = 1 << index;
            if raw.fraction & mask != 0 {
                mantissa = mantissa + mask;
            }
            index = index + 1;
        }
        proof {
            lemma_weighted_bits_are_the_fraction(raw.fraction);
            lemma_decoded_value(raw);
        }
        if subnormal {
            Decoded::Subnormal { multiplier, exponent, mantissa }
        } else {
            Decoded::Normal { multiplier, exponent, mantissa }
        }
    }
}

/// The fields of the pattern that decoded parts multiply back into. A NaN
/// gives the fields of the canonical quiet NaN.
pub open spec fn reconstructed_fields(d: Decoded) -> RawFields {
    match d {
        Decoded::Normal { multiplier, exponent, mantissa } => RawFields {
            sign: sign_bit(multiplier as int),
            exponent: (exponent + BIAS) as u32,
            fraction: (mantissa - IMPLICIT_ONE) as u32,
        },
        Decoded::Subnormal { multiplier, exponent, mantissa } => RawFields {
            sign: sign_bit(multiplier as int),
            exponent: 0,
            fraction: mantissa,
        },
        Decoded::Infinity { multiplier } => RawFields {
            sign: sign_bit(multiplier as int),
            exponent: EXPONENT_MAX,
            fraction: 0,
        },
        Decoded::NaN => raw_fields(CANONICAL_NAN),
    }
}

/// The pattern that decoded parts multiply back into.
pub open spec fn reconstructed(d: Decoded) -> u32 {
    reconstructed_fields(d).pattern() as u32
}

/// Multiplies decoded parts back into one pattern.
///
/// For a number the pattern's value is the exact product of multiplier,
/// radix power and mantissa: well-formed parts need no rounding. Infinities
/// and NaNs bypass the product; an infinity keeps its sign and a NaN becomes
/// the canonical quiet NaN.
pub fn reconstruct(d: Decoded) -> (bits: u32)
    requires
        d.wf(),
    ensures
        bits == reconstructed(d),
        d !is NaN ==> decoded(raw_fields(bits)) == d,
        d is NaN ==> bits == CANONICAL_NAN,
        d.is_finite() ==> raw_fields(bits).is_finite() && raw_fields(bits).scaled_value()
            == d.scaled_value(),
{
    proof {
        lemma_raw_fields_concatenate(CANONICAL_NAN);
        lemma_pattern_has_fields(reconstructed_fields(d));
        if d.is_finite() {
            lemma_decoded_value(reconstructed_fields(d));
        }
    }
    let raw = match d {
        Decoded::Normal { multiplier, exponent, mantissa } => RawFields {
            sign: if multiplier < 0 {
                1
            } else {
                0
            },
            exponent: (exponent + BIAS) as u32,
            fraction: mantissa - IMPLICIT_ONE,
        },
        Decoded::Subnormal { multiplier, exponent, mantissa } => RawFields {
            sign: if multiplier < 0 {
                1
            } else {
                0
            },
            exponent: 0,
            fraction: mantissa,
        },
        Decoded::Infinity { multiplier } => RawFields {
            sign: if multiplier < 0 {
                1
            } else {
                0
            },
            exponent: EXPONENT_MAX,
            fraction: 0,
        },
        Decoded::NaN => { return CANONICAL_NAN; },
    };
    compose(raw)
}

/// Splitting a pattern, decoding its fields and multiplying the parts back
/// gives the pattern itself, bit for bit, unless it is a NaN; every NaN comes
/// back as the canonical quiet NaN. For a number the product of the decoded
/// parts is the number's value.
pub proof fn lemma_round_trip(bits: u32)
    ensures
        decoded(raw_fields(bits)).wf(),
        !is_nan(bits) ==> reconstructed(decoded(raw_fields(bits))) == bits,
        is_nan(bits) ==> reconstructed(decoded(raw_fields(bits))) == CANONICAL_NAN,
        raw_fields(bits).is_finite() ==> decoded(raw_fields(bits)).scaled_value() == raw_fields(
            bits,
        ).scaled_value(),
{
    lemma_raw_fields_concatenate(bits);
    lemma_raw_fields_concatenate(CANONICAL_NAN);
    if raw_fields(bits).is_finite() {
        lemma_decoded_value(raw_fields(bits));
    }
}

/// Splits a pattern, decodes its fields and multiplies the parts back into
/// a pattern. Every pattern comes back as it went in, but for the NaNs, which
/// all come back as the canonical quiet NaN.
pub fn round_trip(bits: u32) -> (back: u32)
    ensures
        back == reconstructed(decoded(raw_fields(bits))),
        !is_nan(bits) ==> back == bits,
        is_nan(bits) ==> back == CANONICAL_NAN,
{
    proof {
        lemma_round_trip(bits);
    }
    reconstruct(decode(decompose(bits)))
}

} // verus!
