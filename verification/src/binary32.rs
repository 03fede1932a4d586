//! The binary32 layout: one sign bit, eight exponent bits, twenty-three
//! fraction bits, most significant first.
use vstd::arithmetic::power2::{lemma2_to64, lemma_pow2_adds, lemma_pow2_unfold, pow2};
use vstd::bits::lemma_u32_shl_is_mul;
use vstd::prelude::*;
use crate::power::{highest_set_bit, lemma_pow2_exponent_order, lemma_pow2_monotone};

verus! {

/// Width of the exponent field.
pub const EXPONENT_BITS: u32 = 8;

/// Width of the fraction field.
pub const MANTISSA_BITS: u32 = 23;

/// Offset between the stored exponent field and the power that it stands for.
pub const BIAS: i32 = 127;

/// Lowest power of the radix that the format stores: that of the smallest
/// normal numbers, and of every subnormal one.
pub const MIN_EXPONENT: i32 = -126;

/// Highest power of the radix that the format stores.
pub const MAX_EXPONENT: i32 = 127;

/// Base that is raised to the decoded exponent. The layout never stores it.
pub const RADIX: u32 = 2;

/// Largest value of the exponent field; it marks infinities and NaNs.
pub const EXPONENT_MAX: u32 = 0xff;

/// Largest value of the fraction field.
pub const FRACTION_MAX: u32 = 0x7f_ffff;

/// The leading one of a normal number's mantissa, in units of 2^-23. The
/// fraction field does not store it.
pub const IMPLICIT_ONE: u32 = 0x80_0000;

/// The pattern that stands for positive infinity.
pub const POSITIVE_INFINITY: u32 = 0x7f80_0000;

/// The pattern that stands for negative infinity.
pub const NEGATIVE_INFINITY: u32 = 0xff80_0000;

/// The quiet NaN that this library hands out wherever it has to make one.
pub const CANONICAL_NAN: u32 = 0x7fc0_0000;

/// Every finite binary32 value is a whole multiple of 2^-149. The value
/// model counts in that unit, so that it needs integers only.
pub const UNIT_EXPONENT: i32 = -149;

/// The three fields of a 32-bit pattern, each as an unsigned integer and
/// without any interpretation.
#[derive(Clone, Copy, Debug, PartialEq, Eq, Structural)]
pub struct RawFields {
    pub sign: u32,
    pub exponent: u32,
    pub fraction: u32,
}

impl RawFields {
    /// Each field fits its width.
    pub open spec fn wf(self) -> bool {
        &&& self.sign <= 1
        &&& self.exponent <= EXPONENT_MAX
        &&& self.fraction <= FRACTION_MAX
    }

    /// Tells whether each field fits its width.
    pub fn is_well_formed(&self) -> (ok: bool)
        ensures
            ok == self.wf(),
    {
        self.sign <= 1 && self.exponent <= EXPONENT_MAX && self.fraction <= FRACTION_MAX
    }

    /// The fields written one after the other: sign, exponent, fraction.
    pub open spec fn pattern(self) -> int {
        self.sign * 0x8000_0000 + self.exponent * 0x80_0000 + self.fraction
    }

    /// The fields belong to a number, not to an infinity or a NaN.
    pub open spec fn is_finite(self) -> bool {
        self.exponent != EXPONENT_MAX
    }

    /// The absolute value of a finite number, in units of 2^-149.
    ///
    /// With a zero exponent field the fraction counts those units directly.
    /// Otherwise the mantissa is the fraction with the implicit one in front,
    /// and each step of the exponent field doubles it.
    pub open spec fn magnitude(self) -> nat {
        if self.exponent == 0 {
            self.fraction as nat
        } else {
            (IMPLICIT_ONE as nat + self.fraction as nat) * pow2((self.exponent - 1) as nat)
        }
    }

    /// The value of a finite number, in units of 2^-149.
    pub open spec fn scaled_value(self) -> int {
        if self.sign == 0 {
            self.magnitude() as int
        } else {
            -(self.magnitude() as int)
        }
    }
}

/// The fields of `bits`, by shifting and masking.
pub open spec fn raw_fields(bits: u32) -> RawFields {
    RawFields { sign: bits >> 31, exponent: (bits >> 23) & 0xff, fraction: bits & 0x7f_ffff }
}

/// The fields of any pattern fit their widths, and written one after the
/// other they give the pattern back.
pub proof fn lemma_raw_fields_concatenate(bits: u32)
    ensures
        raw_fields(bits).wf(),
        raw_fields(bits).pattern() == bits,
{
    assert((bits >> 31) <= 1 && ((bits >> 23) & 0xff) <= 0xff && (bits & 0x7f_ffff) <= 0x7f_ffff
        && (bits >> 31) * 0x8000_0000 + ((bits >> 23) & 0xff) * 0x80_0000 + (bits & 0x7f_ffff)
        == bits) by (bit_vector);
}

/// Well-formed fields, written one after the other, make a 32-bit pattern
/// that has exactly those fields.
pub proof fn lemma_pattern_has_fields(raw: RawFields)
    requires
        raw.wf(),
    ensures
        0 <= raw.pattern() <= u32::MAX,
        raw_fields(raw.pattern() as u32) == raw,
        raw.pattern() == (raw.sign << 31) | (raw.exponent << 23) | raw.fraction,
{
    let s = raw.sign;
    let e = raw.exponent;
    let f = raw.fraction;
    assert(s <= 1 && e <= 0xff && f <= 0x7f_ffff ==> {
        let bits = (s << 31) | (e << 23) | f;
        &&& bits == s * 0x8000_0000 + e * 0x80_0000 + f
        &&& bits >> 31 == s
        &&& (bits >> 23) & 0xff == e
        &&& bits & 0x7f_ffff == f
    }) by (bit_vector);
}

/// Splits a pattern into its fields.
pub fn decompose(bits: u32) -> (raw: RawFields)
    ensures
        raw == raw_fields(bits),
        raw.sign == bits >> 31,
        raw.exponent == (bits >> 23) & 0xff,
        raw.fraction == bits & 0x7f_ffff,
        raw.wf(),
        raw.pattern() == bits,
{
    proof {
        lemma_raw_fields_concatenate(bits);
    }
    RawFields {
        sign: bits >> (MANTISSA_BITS + EXPONENT_BITS),
        exponent: (bits >> MANTISSA_BITS) & EXPONENT_MAX,
        fraction: bits & FRACTION_MAX,
    }
}

/// Joins fields into the pattern that has them: the inverse of
/// [`decompose`].
pub fn compose(raw: RawFields) -> (bits: u32)
    requires
        raw.wf(),
    ensures
        bits == raw.pattern(),
        bits == (raw.sign << 31) | (raw.exponent << 23) | raw.fraction,
        raw_fields(bits) == raw,
{
    proof {
        lemma_pattern_has_fields(raw);
    }
    (raw.sign << (MANTISSA_BITS + EXPONENT_BITS)) | (raw.exponent << MANTISSA_BITS) | raw.fraction
}

/// The pattern stands for a NaN.
pub open spec fn is_nan(bits: u32) -> bool {
    raw_fields(bits).exponent == EXPONENT_MAX && raw_fields(bits).fraction != 0
}

/// The pattern stands for an infinity.
pub open spec fn is_infinite(bits: u32) -> bool {
    raw_fields(bits).exponent == EXPONENT_MAX && raw_fields(bits).fraction == 0
}

/// The pattern stands for a number: a zero, a subnormal or a normal one.
pub open spec fn is_finite(bits: u32) -> bool {
    raw_fields(bits).is_finite()
}

/// The sign bit of the pattern is set.
pub open spec fn is_negative(bits: u32) -> bool {
    raw_fields(bits).sign == 1
}

/// The value of a finite pattern, in units of 2^-149.
pub open spec fn scaled_value(bits: u32) -> int {
    raw_fields(bits).scaled_value()
}

/// A finite number's magnitude lies in the band that its exponent field
/// names: below 2^23 for a zero field, and from 2^(field + 22) up to
/// 2^(field + 23) otherwise.
pub proof fn lemma_magnitude_band(raw: RawFields)
    requires
        raw.wf(),
        raw.is_finite(),
    ensures
        raw.exponent == 0 ==> raw.magnitude() < pow2(23),
        raw.exponent != 0 ==> pow2((raw.exponent + 22) as nat) <= raw.magnitude() < pow2(
            (raw.exponent + 23) as nat,
        ),
{
    lemma2_to64();
    if raw.exponent != 0 {
        let e = (raw.exponent - 1) as nat;
        let m = (IMPLICIT_ONE + raw.fraction) as int;
        let scale = pow2(e) as int;
        lemma_pow2_adds(23, e);
        lemma_pow2_adds(24, e);
        lemma_pow2_monotone(0, e);
        assert(pow2(23) * scale <= m * scale < pow2(24) * scale) by (nonlinear_arith)
            requires
                pow2(23) <= m < pow2(24),
                0 < scale,
        ;
    }
}

/// Two finite numbers of equal magnitude have equal exponent and fraction
/// fields.
pub proof fn lemma_magnitude_determines_fields(a: RawFields, b: RawFields)
    requires
        a.wf(),
        b.wf(),
        a.is_finite(),
        b.is_finite(),
        a.magnitude() == b.magnitude(),
    ensures
        a.exponent == b.exponent,
        a.fraction == b.fraction,
{
    lemma_magnitude_band(a);
    lemma_magnitude_band(b);
    if a.exponent < b.exponent {
        lemma_pow2_monotone((a.exponent + 23) as nat, (b.exponent + 22) as nat);
    } else if b.exponent < a.exponent {
        lemma_pow2_monotone((b.exponent + 23) as nat, (a.exponent + 22) as nat);
    } else if a.exponent != 0 {
        let scale = pow2((a.exponent - 1) as nat) as int;
        lemma_pow2_monotone(0, (a.exponent - 1) as nat);
        let x = (IMPLICIT_ONE + a.fraction) as int;
        let y = (IMPLICIT_ONE + b.fraction) as int;
        assert(x == y) by (nonlinear_arith)
            requires
                x * scale == y * scale,
                0 < scale,
        ;
    }
}

/// A finite pattern is pinned down by its sign bit and its value: two
/// finite patterns that agree on both are the same pattern.
pub proof fn lemma_value_determines_pattern(a: u32, b: u32)
    requires
        is_finite(a),
        is_finite(b),
        is_negative(a) == is_negative(b),
        scaled_value(a) == scaled_value(b),
    ensures
        a == b,
{
    lemma_raw_fields_concatenate(a);
    lemma_raw_fields_concatenate(b);
    lemma_magnitude_determines_fields(raw_fields(a), raw_fields(b));
}

/// The number one, in units of 2^-149.
pub open spec fn one() -> nat {
    pow2(149)
}

/// The pattern stands for positive infinity or for a number from one up.
pub open spec fn is_at_least_one(bits: u32) -> bool {
    if is_finite(bits) {
        scaled_value(bits) >= one()
    } else {
        is_infinite(bits) && !is_negative(bits)
    }
}

/// The pattern stands for negative infinity or for a number from minus one
/// down.
pub open spec fn is_at_most_minus_one(bits: u32) -> bool {
    if is_finite(bits) {
        scaled_value(bits) <= -one()
    } else {
        is_infinite(bits) && is_negative(bits)
    }
}

/// Scaling keeps a number below its bound.
proof fn lemma_scaled_below(significand: int, bound: int, scale: int)
    by (nonlinear_arith)
    requires
        0 <= significand < bound,
        0 < scale,
    ensures
        0 <= significand * scale < bound * scale,
{
}

/// A significand with its leading bit at `top`, moved up by `gap` so that
/// the leading bit lands on the implicit one, leaves a fraction that fits its
/// field, and the mantissa so made is the significand times `gap`.
proof fn lemma_normalized_magnitude(
    significand: int,
    top: int,
    gap: int,
    scale: int,
    fraction: int,
    one: int,
)
    by (nonlinear_arith)
    requires
        top <= significand < 2 * top,
        0 < gap,
        top * gap == one,
        fraction == (significand - top) * gap,
    ensures
        0 <= fraction < one,
        (one + fraction) * scale == significand * (gap * scale),
{
}

/// The pattern of the number `significand * 2^exponent`, negated where
/// `negative` is set.
///
/// The significand is kept below 2^24, so it fits the mantissa, and the
/// exponent between the format's unit and the highest power that leaves
/// room for a full significand. Every such number is a zero, a subnormal or
/// a normal number of the format, so nothing is rounded: the pattern stands
/// for that number exactly. Zero keeps the sign that was asked for.
pub fn from_dyadic(negative: bool, significand: u32, exponent: i32) -> (bits: u32)
    requires
        significand < 2 * IMPLICIT_ONE,
        UNIT_EXPONENT <= exponent <= MAX_EXPONENT - MANTISSA_BITS,
    ensures
        is_finite(bits),
        is_negative(bits) == negative,
        scaled_value(bits) == if negative {
            -(significand * pow2((exponent - UNIT_EXPONENT) as nat))
        } else {
            significand * pow2((exponent - UNIT_EXPONENT) as nat)
        },
{
    let sign: u32 = if negative {
        1
    } else {
        0
    };
    if significand == 0 {
        return compose(RawFields { sign, exponent: 0, fraction: 0 });
    }
    let position: u32 = highest_set_bit(significand as u64);
    proof {
        lemma2_to64();
        lemma_pow2_exponent_order(position as nat, 24);
        lemma_pow2_monotone(position as nat, 23);
        lemma_u32_shl_is_mul(1, position);
    }
    if exponent + (position as i32) < MIN_EXPONENT {
        let shift: u32 = (exponent - UNIT_EXPONENT) as u32;
        proof {
            lemma_pow2_adds((position + 1) as nat, shift as nat);
            lemma_pow2_monotone((position + 1 + shift) as nat, 23);
            lemma_pow2_monotone(0, shift as nat);
            lemma_pow2_unfold((position + 1) as nat);
            lemma_scaled_below(
                significand as int,
                pow2((position + 1) as nat) as int,
                pow2(shift as nat) as int,
            );
            lemma_u32_shl_is_mul(significand, shift);
        }
        return compose(RawFields { sign, exponent: 0, fraction: significand << shift });
    }
    let top: u32 = 1 << position;
    let ghost gap = pow2((MANTISSA_BITS - position) as nat);
    let stored: u32 = (exponent + position as i32 + BIAS) as u32;
    proof {
        lemma_pow2_adds(position as nat, (MANTISSA_BITS - position) as nat);
        lemma_pow2_monotone(0, (MANTISSA_BITS - position) as nat);
        lemma_normalized_magnitude(
            significand as int,
            top as int,
            gap as int,
            pow2((stored - 1) as nat) as int,
            (significand - top) * gap,
            IMPLICIT_ONE as int,
        );
        lemma_u32_shl_is_mul((significand - top) as u32, (MANTISSA_BITS - position) as u32);
        lemma_pow2_adds((MANTISSA_BITS - position) as nat, (stored - 1) as nat);
    }
    let fraction: u32 = (significand - top) << (MANTISSA_BITS - position);
    compose(RawFields { sign, exponent: stored, fraction })
}

} // verus!
