//! Classification of IEEE-754 binary64 values held as their raw bit patterns.
//!
//! Measurement dimensions travel through the library as the 64-bit patterns
//! of binary64 numbers, so every decision the library takes about them
//! (finite, negative, zero) is a decision about bits.

use vstd::prelude::*;

verus! {

/// Sign bit of a binary64 pattern.
pub const SIGN_BIT: u64 = 0x8000_0000_0000_0000u64;

/// Exponent field of a binary64 pattern.
pub const EXPONENT_BITS: u64 = 0x7ff0_0000_0000_0000u64;

/// Significand field of a binary64 pattern.
pub const SIGNIFICAND_BITS: u64 = 0x000f_ffff_ffff_ffffu64;

/// Everything but the sign bit.
pub const MAGNITUDE_BITS: u64 = 0x7fff_ffff_ffff_ffffu64;

/// The pattern is neither an infinity nor a NaN.
pub open spec fn is_finite(bits: u64) -> bool {
    bits & EXPONENT_BITS != EXPONENT_BITS
}

/// The pattern is a NaN.
pub open spec fn is_nan(bits: u64) -> bool {
    bits & EXPONENT_BITS == EXPONENT_BITS && bits & SIGNIFICAND_BITS != 0
}

/// The pattern is positive or negative zero.
pub open spec fn is_zero(bits: u64) -> bool {
    bits & MAGNITUDE_BITS == 0
}

/// The sign bit is set.
pub open spec fn sign_is_negative(bits: u64) -> bool {
    bits & SIGN_BIT != 0
}

/// The number compares `<= 0.0`.
pub open spec fn is_at_most_zero(bits: u64) -> bool {
    !is_nan(bits) && (is_zero(bits) || sign_is_negative(bits))
}

/// The number compares `< 0.0`.
pub open spec fn is_below_zero(bits: u64) -> bool {
    !is_nan(bits) && sign_is_negative(bits) && !is_zero(bits)
}

/// The number is finite and compares `> 0.0`.
pub open spec fn is_positive_finite(bits: u64) -> bool {
    is_finite(bits) && !is_at_most_zero(bits)
}

/// Whether a binary64 pattern is finite.
pub fn bits_is_finite(bits: u64) -> (result: bool)
    ensures
        result == is_finite(bits),
{
    bits & EXPONENT_BITS != EXPONENT_BITS
}

/// Whether a binary64 pattern compares `<= 0.0`.
pub fn bits_is_at_most_zero(bits: u64) -> (result: bool)
    ensures
        result == is_at_most_zero(bits),
{
    let nan = bits & EXPONENT_BITS == EXPONENT_BITS && bits & SIGNIFICAND_BITS != 0;
    !nan && (bits & MAGNITUDE_BITS == 0 || bits & SIGN_BIT != 0)
}

/// Whether a binary64 pattern compares `< 0.0`.
pub fn bits_is_below_zero(bits: u64) -> (result: bool)
    ensures
        result == is_below_zero(bits),
{
    let nan = bits & EXPONENT_BITS == EXPONENT_BITS && bits & SIGNIFICAND_BITS != 0;
    !nan && bits & SIGN_BIT != 0 && bits & MAGNITUDE_BITS != 0
}

/// The classes of a binary64 pattern, read off its fields: the exponent is
/// bits 52 to 62, the sign is bit 63, and the value is zero exactly when
/// every bit but the sign is clear. A NaN is unordered; every other pattern
/// compares below zero, equal to zero, or above zero, and only the sign
/// decides between below and above.
pub proof fn lemma_float_classes(bits: u64)
    ensures
        is_finite(bits) <==> (bits >> 52u64) & 0x7ffu64 != 0x7ffu64,
        is_nan(bits) <==> (bits >> 52u64) & 0x7ffu64 == 0x7ffu64 && (bits << 12u64) != 0,
        is_zero(bits) <==> (bits << 1u64) == 0,
        sign_is_negative(bits) <==> (bits >> 63u64) == 1,
        is_below_zero(bits) <==> !is_nan(bits) && (bits >> 63u64) == 1 && (bits << 1u64) != 0,
        is_at_most_zero(bits) <==> !is_nan(bits) && ((bits >> 63u64) == 1 || (bits << 1u64) == 0),
        is_positive_finite(bits) <==> (bits >> 52u64) & 0x7ffu64 != 0x7ffu64 && (bits >> 63u64) == 0
            && (bits << 1u64) != 0,
        is_below_zero(bits) ==> is_at_most_zero(bits) && !is_zero(bits),
        is_zero(bits) ==> is_at_most_zero(bits) && !is_below_zero(bits) && is_finite(bits),
{
    assert(((bits & 0x7ff0_0000_0000_0000u64) != 0x7ff0_0000_0000_0000u64) <==> ((bits >> 52u64)
        & 0x7ffu64 != 0x7ffu64)) by (bit_vector);
    assert(((bits & 0x7ff0_0000_0000_0000u64) == 0x7ff0_0000_0000_0000u64 && (bits
        & 0x000f_ffff_ffff_ffffu64) != 0) <==> ((bits >> 52u64) & 0x7ffu64 == 0x7ffu64 && (bits
        << 12u64) != 0)) by (bit_vector);
    assert(((bits & 0x7fff_ffff_ffff_ffffu64) == 0) <==> ((bits << 1u64) == 0)) by (bit_vector);
    assert(((bits & 0x8000_0000_0000_0000u64) != 0) <==> ((bits >> 63u64) == 1)) by (bit_vector);
    assert(((bits >> 63u64) == 1) || ((bits >> 63u64) == 0)) by (bit_vector);
    assert(((bits & 0x7fff_ffff_ffff_ffffu64) == 0) ==> ((bits & 0x7ff0_0000_0000_0000u64)
        != 0x7ff0_0000_0000_0000u64)) by (bit_vector);
}

} // verus!
