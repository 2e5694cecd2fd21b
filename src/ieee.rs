//! The part of the IEEE 754 binary64 encoding that ordering needs: the sign,
//! the magnitude, NaN, and the position of a pattern in the standard's
//! totalOrder.

use vstd::prelude::*;

verus! {

/// The sign bit of a binary64 pattern.
pub const SIGN_BIT: u64 = 0x8000_0000_0000_0000;

/// The pattern of positive infinity: exponent all ones, fraction zero.
pub const INFINITY_BITS: u64 = 0x7FF0_0000_0000_0000;

/// The pattern's sign bit is set.
pub open spec fn is_negative(b: u64) -> bool {
    b >= SIGN_BIT
}

/// The pattern without its sign bit. For every number that is not a NaN, a
/// larger magnitude pattern encodes a larger absolute value.
pub open spec fn magnitude(b: u64) -> int {
    if is_negative(b) {
        b - SIGN_BIT
    } else {
        b as int
    }
}

/// A NaN has an exponent of all ones and a fraction other than zero, so its
/// magnitude lies above that of infinity.
pub open spec fn is_nan(b: u64) -> bool {
    magnitude(b) > INFINITY_BITS
}

/// Position of a pattern in totalOrder: negative patterns below positive
/// ones, more negative values lower, and `-0.0` just below `+0.0`. For two
/// numbers that are not NaN, the smaller value has the smaller key; the only
/// pair that compares equal as numbers but gets two keys is `-0.0 < +0.0`.
pub open spec fn order_key(b: u64) -> int {
    if is_negative(b) {
        -magnitude(b) - 1
    } else {
        magnitude(b)
    }
}

/// Distinct patterns have distinct keys.
pub proof fn lemma_order_key_injective(a: u64, b: u64)
    ensures
        order_key(a) == order_key(b) ==> a == b,
{
}

/// Tells whether the pattern encodes a NaN.
pub fn is_nan_bits(b: u64) -> (r: bool)
    ensures
        r == is_nan(b),
{
    let m: u64 = if b >= SIGN_BIT {
        b - SIGN_BIT
    } else {
        b
    };
    m > INFINITY_BITS
}

/// The totalOrder key of a pattern; it always fits an `i64`.
pub fn total_order_key(b: u64) -> (k: i64)
    ensures
        k as int == order_key(b),
{
    if b >= SIGN_BIT {
        let m: u64 = b - SIGN_BIT;
        -(m as i64) - 1
    } else {
        b as i64
    }
}

} // verus!
