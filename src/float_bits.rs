//! IEEE-754 binary64 values seen through their bit patterns.
//!
//! A bit pattern holds a sign bit above 63 bits of magnitude (exponent and fraction).
//! For every value that is not NaN, the numeric order of the floats is the order of
//! their signed magnitudes: positive values grow with the magnitude, negative values
//! shrink with it, and both zeros have magnitude zero.
use vstd::prelude::*;

verus! {

/// The sign bit of a binary64 bit pattern.
pub const SIGN_BIT: u64 = 0x8000_0000_0000_0000;

/// The bit pattern of positive infinity: all exponent bits set, fraction zero.
pub const INFINITY_BITS: u64 = 0x7ff0_0000_0000_0000;

/// Exponent and fraction bits of a pattern, read as an unsigned integer.
pub open spec fn magnitude(b: u64) -> int {
    b as int % (SIGN_BIT as int)
}

/// Whether the sign bit is set.
pub open spec fn is_negative(b: u64) -> bool {
    b >= SIGN_BIT
}

/// NaN: all exponent bits set and a nonzero fraction.
pub open spec fn is_nan(b: u64) -> bool {
    magnitude(b) > INFINITY_BITS as int
}

/// The signed magnitude of a pattern; for values that are not NaN it orders them
/// as the floating-point comparison does.
pub open spec fn rank(b: u64) -> int {
    if is_negative(b) {
        -magnitude(b)
    } else {
        magnitude(b)
    }
}

/// Floating-point `a < b`: false whenever either side is NaN.
pub open spec fn spec_lt(a: u64, b: u64) -> bool {
    !is_nan(a) && !is_nan(b) && rank(a) < rank(b)
}

/// Floating-point `a <= b`: false whenever either side is NaN.
pub open spec fn spec_le(a: u64, b: u64) -> bool {
    !is_nan(a) && !is_nan(b) && rank(a) <= rank(b)
}

/// Floating-point `a >= b`: false whenever either side is NaN.
pub open spec fn spec_ge(a: u64, b: u64) -> bool {
    !is_nan(a) && !is_nan(b) && rank(a) >= rank(b)
}

/// Whether the pattern encodes NaN.
pub fn is_nan_bits(b: u64) -> (r: bool)
    ensures
        r == is_nan(b),
{
    b % SIGN_BIT > INFINITY_BITS
}

/// The floating-point comparison `a < b` on bit patterns.
pub fn float_lt(a: u64, b: u64) -> (r: bool)
    ensures
        r == spec_lt(a, b),
{
    if is_nan_bits(a) || is_nan_bits(b) {
        return false;
    }
    let ma = a % SIGN_BIT;
    let mb = b % SIGN_BIT;
    let na = a >= SIGN_BIT;
    let nb = b >= SIGN_BIT;
    if na && nb {
        mb < ma
    } else if na {
        ma != 0 || mb != 0
    } else if nb {
        false
    } else {
        ma < mb
    }
}

/// The floating-point comparison `a >= b` on bit patterns.
pub fn float_ge(a: u64, b: u64) -> (r: bool)
    ensures
        r == spec_ge(a, b),
{
    if is_nan_bits(a) || is_nan_bits(b) {
        return false;
    }
    !float_lt(a, b)
}

} // verus!
