//! IEEE-754 single-precision values handled through their bit patterns.
use vstd::prelude::*;

verus! {

/// Bit pattern of positive infinity.
pub const POS_INFINITY: u32 = 0x7f80_0000;

/// Bit pattern of negative infinity.
pub const NEG_INFINITY: u32 = 0xff80_0000;

/// The sign bit.
pub const SIGN_BIT: u32 = 0x8000_0000;

/// Magnitude part of a bit pattern: every bit but the sign.
pub open spec fn magnitude(b: u32) -> int {
    if b >= SIGN_BIT {
        b - SIGN_BIT
    } else {
        b as int
    }
}

/// Whether the pattern encodes a NaN (all exponent bits set, non-zero mantissa).
pub open spec fn is_nan(b: u32) -> bool {
    magnitude(b) > POS_INFINITY
}

/// Position of a non-NaN value on the real line extended by the infinities:
/// `a < b` as floats exactly when `order_key(a) < order_key(b)`.
/// Both zeros share the key 0.
pub open spec fn order_key(b: u32) -> int {
    if b >= SIGN_BIT {
        -magnitude(b)
    } else {
        magnitude(b)
    }
}

/// `a <= b` as floats; false whenever one of them is NaN.
pub open spec fn float_le(a: u32, b: u32) -> bool {
    !is_nan(a) && !is_nan(b) && order_key(a) <= order_key(b)
}

/// Minimum ignoring NaN: a NaN operand yields the other one.
pub open spec fn min_bits(a: u32, b: u32) -> u32 {
    if is_nan(a) {
        b
    } else if is_nan(b) {
        a
    } else if order_key(b) < order_key(a) {
        b
    } else {
        a
    }
}

/// Maximum ignoring NaN: a NaN operand yields the other one.
pub open spec fn max_bits(a: u32, b: u32) -> u32 {
    if is_nan(a) {
        b
    } else if is_nan(b) {
        a
    } else if order_key(b) > order_key(a) {
        b
    } else {
        a
    }
}

fn magnitude_exec(b: u32) -> (r: u32)
    ensures
        r as int == magnitude(b),
{
    if b >= SIGN_BIT {
        b - SIGN_BIT
    } else {
        b
    }
}

/// Whether `b` encodes a NaN.
pub fn bits_is_nan(b: u32) -> (r: bool)
    ensures
        r == is_nan(b),
{
    magnitude_exec(b) > POS_INFINITY
}

fn order_key_exec(b: u32) -> (r: i64)
    ensures
        r as int == order_key(b),
{
    let m = magnitude_exec(b) as i64;
    if b >= SIGN_BIT {
        -m
    } else {
        m
    }
}

/// The smaller of two floats given by their bits, ignoring NaN.
pub fn min_of_bits(a: u32, b: u32) -> (r: u32)
    ensures
        r == min_bits(a, b),
{
    if bits_is_nan(a) {
        b
    } else if bits_is_nan(b) {
        a
    } else if order_key_exec(b) < order_key_exec(a) {
        b
    } else {
        a
    }
}

/// The larger of two floats given by their bits, ignoring NaN.
pub fn max_of_bits(a: u32, b: u32) -> (r: u32)
    ensures
        r == max_bits(a, b),
{
    if bits_is_nan(a) {
        b
    } else if bits_is_nan(b) {
        a
    } else if order_key_exec(b) > order_key_exec(a) {
        b
    } else {
        a
    }
}

} // verus!
