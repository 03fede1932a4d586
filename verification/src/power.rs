//! Powers of two: the facts about them that the codecs lean on, and the
//! search for a number's leading bit.
use vstd::arithmetic::div_mod::lemma_div_multiples_vanish_quotient;
use vstd::arithmetic::power2::{
    lemma2_to64, lemma_pow2_adds, lemma_pow2_pos, lemma_pow2_strictly_increases,
    lemma_pow2_unfold, pow2,
};
use vstd::prelude::*;

verus! {

/// Powers of two grow with their exponent.
pub proof fn lemma_pow2_monotone(low: nat, high: nat)
    requires
        low <= high,
    ensures
        0 < pow2(low) <= pow2(high),
{
    lemma_pow2_pos(low);
    if low < high {
        lemma_pow2_strictly_increases(low, high);
    }
}

/// Of two powers of two the smaller one has the smaller exponent.
pub proof fn lemma_pow2_exponent_order(low: nat, high: nat)
    requires
        pow2(low) < pow2(high),
    ensures
        low < high,
{
    if high <= low {
        lemma_pow2_monotone(high, low);
    }
}

/// Dividing a multiple of a power of two by a higher power of two takes the
/// lower one off both.
pub proof fn lemma_quotient_of_scaled(m: nat, low: nat, high: nat)
    requires
        low <= high,
    ensures
        (m * pow2(low)) / pow2(high) == m / pow2((high - low) as nat),
{
    let rest = (high - low) as nat;
    lemma_pow2_pos(low);
    lemma_pow2_pos(rest);
    lemma_pow2_adds(low, rest);
    lemma_div_multiples_vanish_quotient(pow2(low) as int, m as int, pow2(rest) as int);
    assert(m * pow2(low) == pow2(low) * m) by (nonlinear_arith);
}

/// The position of the leading bit of a nonzero number: the `p` for which
/// the number lies from 2^p up to 2^(p+1).
pub fn highest_set_bit(n: u64) -> (position: u32)
    requires
        n > 0,
    ensures
        position < 64,
        pow2(position as nat) <= n < 2 * pow2(position as nat),
{
    let mut position: u32 = 0;
    let mut top: u64 = 1;
    proof {
        lemma2_to64();
    }
    while top <= n / 2
        invariant
            top == pow2(position as nat),
            0 < top <= n,
            position < 64,
        decreases n - top,
    {
        proof {
            lemma2_to64();
            lemma_pow2_unfold((position + 1) as nat);
            if position + 1 >= 64 {
                lemma_pow2_monotone(64, (position + 1) as nat);
            }
        }
        top = top * 2;
        position = position + 1;
    }
    position
}

} // verus!
