//! Binary64 weights, classified by their encodings.

use vstd::prelude::*;

verus! {

/// The sign bit of a binary64 encoding.
pub const SIGN_BIT: u64 = 0x8000_0000_0000_0000;

/// The encoding of positive infinity: a larger magnitude is a NaN.
pub const INFINITY_BITS: u64 = 0x7ff0_0000_0000_0000;

/// The encoding with its sign bit cleared.
pub open spec fn magnitude(w: u64) -> u64 {
    (w % SIGN_BIT) as u64
}

pub open spec fn is_nan_bits(w: u64) -> bool {
    magnitude(w) > INFINITY_BITS
}

/// `+0.0` or `-0.0`.
pub open spec fn is_zero_bits(w: u64) -> bool {
    magnitude(w) == 0
}

/// The value is `< 0.0` (negative infinity included, NaN excluded).
pub open spec fn is_negative_bits(w: u64) -> bool {
    w >= SIGN_BIT && !is_zero_bits(w) && !is_nan_bits(w)
}

/// The value is `> 0.0` (positive infinity included, NaN excluded).
pub open spec fn is_positive_bits(w: u64) -> bool {
    w < SIGN_BIT && !is_zero_bits(w) && !is_nan_bits(w)
}

/// Floating-point `==` on two encodings: NaN equals nothing, the two zeros are equal.
pub open spec fn same_value_bits(a: u64, b: u64) -> bool {
    !is_nan_bits(a) && !is_nan_bits(b) && (a == b || (is_zero_bits(a) && is_zero_bits(b)))
}

/// Whether the encoded value is `< 0.0`.
pub fn is_negative(w: u64) -> (r: bool)
    ensures
        r == is_negative_bits(w),
{
    let m = w % SIGN_BIT;
    w >= SIGN_BIT && m != 0 && m <= INFINITY_BITS
}

/// Whether the encoded value is `+0.0` or `-0.0`.
pub fn is_zero(w: u64) -> (r: bool)
    ensures
        r == is_zero_bits(w),
{
    w % SIGN_BIT == 0
}

/// Whether the encoded value is `> 0.0`.
pub fn is_positive(w: u64) -> (r: bool)
    ensures
        r == is_positive_bits(w),
{
    let m = w % SIGN_BIT;
    w < SIGN_BIT && m != 0 && m <= INFINITY_BITS
}

/// Floating-point equality of two encoded values.
pub fn same_value(a: u64, b: u64) -> (r: bool)
    ensures
        r == same_value_bits(a, b),
{
    let ma = a % SIGN_BIT;
    let mb = b % SIGN_BIT;
    ma <= INFINITY_BITS && mb <= INFINITY_BITS && (a == b || (ma == 0 && mb == 0))
}

} // verus!
