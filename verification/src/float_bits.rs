//! Ordering of IEEE-754 single-precision values, read from their bit patterns.
//!
//! The pipeline's model outputs and thresholds are `f32` values. The library
//! receives them as their bit patterns (`f32::to_bits`) and compares them
//! here with integer operations only. For values that are not NaN the order
//! of the real numbers is the order of `rank`: the magnitude bits, negated
//! when the sign bit is set (both zeros have rank 0).
use vstd::prelude::*;

verus! {

/// Bit pattern of negative infinity.
pub const NEG_INFINITY_BITS: u32 = 0xff80_0000u32;

/// Bit pattern of `-1.0`.
pub const NEG_ONE_BITS: u32 = 0xbf80_0000u32;

/// Bit pattern of `0.0`.
pub const ZERO_BITS: u32 = 0u32;

/// Bit pattern of `1.0`.
pub const ONE_BITS: u32 = 0x3f80_0000u32;

/// The sign bit is set.
pub open spec fn sign_bit(b: u32) -> bool {
    b & 0x8000_0000u32 != 0
}

/// The exponent and fraction bits.
pub open spec fn magnitude(b: u32) -> u32 {
    b & 0x7fff_ffffu32
}

/// The pattern encodes a NaN: all exponent bits set and a non-zero fraction.
pub open spec fn is_nan(b: u32) -> bool {
    magnitude(b) > 0x7f80_0000u32
}

/// Position on the real line of the value a non-NaN pattern encodes.
pub open spec fn rank(b: u32) -> int {
    if sign_bit(b) {
        -(magnitude(b) as int)
    } else {
        magnitude(b) as int
    }
}

/// IEEE-754 `a < b`: false whenever either side is NaN.
pub open spec fn lt(a: u32, b: u32) -> bool {
    !is_nan(a) && !is_nan(b) && rank(a) < rank(b)
}

/// IEEE-754 `a <= b`: false whenever either side is NaN.
pub open spec fn le(a: u32, b: u32) -> bool {
    !is_nan(a) && !is_nan(b) && rank(a) <= rank(b)
}

/// Sort key of a pattern: an unsigned integer that grows with the value.
pub open spec fn order_key_spec(b: u32) -> u32 {
    if sign_bit(b) {
        !b
    } else {
        b | 0x8000_0000u32
    }
}

/// `f32` comparison `a < b` on bit patterns.
pub fn f32_lt(a: u32, b: u32) -> (r: bool)
    ensures
        r == lt(a, b),
{
    let ma = a & 0x7fff_ffffu32;
    let mb = b & 0x7fff_ffffu32;
    if ma > 0x7f80_0000u32 || mb > 0x7f80_0000u32 {
        return false;
    }
    let ra: i64 = if a & 0x8000_0000u32 != 0 { -(ma as i64) } else { ma as i64 };
    let rb: i64 = if b & 0x8000_0000u32 != 0 { -(mb as i64) } else { mb as i64 };
    ra < rb
}

/// `f32` comparison `a <= b` on bit patterns.
pub fn f32_le(a: u32, b: u32) -> (r: bool)
    ensures
        r == le(a, b),
{
    let ma = a & 0x7fff_ffffu32;
    let mb = b & 0x7fff_ffffu32;
    if ma > 0x7f80_0000u32 || mb > 0x7f80_0000u32 {
        return false;
    }
    let ra: i64 = if a & 0x8000_0000u32 != 0 { -(ma as i64) } else { ma as i64 };
    let rb: i64 = if b & 0x8000_0000u32 != 0 { -(mb as i64) } else { mb as i64 };
    ra <= rb
}

/// Sort key of an `f32` bit pattern (see [`lemma_order_key_monotone`]).
pub fn order_key(b: u32) -> (k: u32)
    ensures
        k == order_key_spec(b),
{
    if b & 0x8000_0000u32 != 0 {
        !b
    } else {
        b | 0x8000_0000u32
    }
}

proof fn lemma_key_parts(b: u32)
    ensures
        !sign_bit(b) ==> order_key_spec(b) == magnitude(b) + 0x8000_0000u32,
        sign_bit(b) ==> order_key_spec(b) == 0x7fff_ffffu32 - magnitude(b),
{
    assert((b & 0x8000_0000u32 == 0) ==> (b | 0x8000_0000u32) == (b & 0x7fff_ffffu32)
        + 0x8000_0000u32) by (bit_vector);
    assert((b & 0x8000_0000u32 != 0) ==> !b == 0x7fff_ffffu32 - (b & 0x7fff_ffffu32))
        by (bit_vector);
}

/// The sort key orders non-NaN values as the real numbers they encode:
/// a smaller value has a smaller key, and a smaller key never belongs to a
/// larger value.
pub proof fn lemma_order_key_monotone(a: u32, b: u32)
    requires
        !is_nan(a),
        !is_nan(b),
    ensures
        lt(a, b) ==> order_key_spec(a) < order_key_spec(b),
        order_key_spec(a) < order_key_spec(b) ==> le(a, b),
{
    lemma_key_parts(a);
    lemma_key_parts(b);
    assert(magnitude(a) <= 0x7fff_ffffu32) by (bit_vector);
    assert(magnitude(b) <= 0x7fff_ffffu32) by (bit_vector);
}

/// Distinct patterns have distinct keys.
pub proof fn lemma_order_key_injective(a: u32, b: u32)
    ensures
        order_key_spec(a) == order_key_spec(b) ==> a == b,
{
    assert(((if a & 0x8000_0000u32 != 0 { !a } else { a | 0x8000_0000u32 }) == (if b
        & 0x8000_0000u32 != 0 {
        !b
    } else {
        b | 0x8000_0000u32
    })) ==> a == b) by (bit_vector);
}

} // verus!
