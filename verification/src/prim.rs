//! Primitive type extras.
//!
//! The operations on floats that work on their bits are computed here on the
//! bits: a float is its sign in the highest bit, its exponent, and its
//! fraction.

use vstd::prelude::*;

verus! {

/// Extra operations on floats.
pub trait FloatExtra {
    /// Computes the square root of this float.
    fn sqrt(self) -> Self;

    /// Computes a unit value with the same signal as this value.
    fn signum(self) -> Self;

    /// Computes the absolute of this value.
    fn abs(self) -> Self;
}

/// The sign bit of a single precision float.
pub const SIGN: u32 = 0x80000000;

/// The bits of the single precision float one.
pub const ONE: u32 = 0x3F800000;

/// Computes the bits of the unit value with the same sign as the float with
/// the given bits: one or minus one.
pub fn signum_bits(bits: u32) -> (res: u32)
    ensures
        res == if bits >= SIGN {
            (SIGN + ONE) as u32
        } else {
            ONE
        },
{
    let res: u32 = bits & 0x80000000 | 0x3F800000;
    assert(res == if bits >= 0x80000000u32 {
        0xBF800000u32
    } else {
        0x3F800000u32
    }) by (bit_vector)
        requires
            res == bits & 0x80000000 | 0x3F800000,
    ;
    res
}

/// Computes the bits of the absolute of the float with the given bits: the
/// same bits without the sign.
pub fn abs_bits(bits: u32) -> (res: u32)
    ensures
        res == bits % SIGN,
{
    let res: u32 = bits & 0x7FFFFFFF;
    assert(res == bits % 0x80000000) by (bit_vector)
        requires
            res == bits & 0x7FFFFFFF,
    ;
    res
}

} // verus!
