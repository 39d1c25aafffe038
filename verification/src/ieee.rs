//! Order and equality of IEEE-754 binary32 values, decided on their bit patterns.
//!
//! A bit pattern is sign (1 bit), exponent (8 bits), fraction (23 bits). A value
//! is a NaN when its exponent is all ones and its fraction is not zero; NaN
//! compares unordered with everything. All other values order by sign and
//! magnitude, with the two zeros equal.

use vstd::prelude::*;

verus! {

/// The bit pattern of `+0.0`.
pub const ZERO: u32 = 0;

/// The bit pattern of `1.0`.
pub const ONE: u32 = 0x3f80_0000;

/// The sign bit alone.
pub const SIGN: u32 = 0x8000_0000;

/// The bit pattern of positive infinity, the largest magnitude that is a number.
pub const INFINITY: u32 = 0x7f80_0000;

/// The pattern without its sign bit.
pub open spec fn magnitude(bits: u32) -> u32 {
    if bits >= SIGN {
        (bits - SIGN) as u32
    } else {
        bits
    }
}

/// True when the pattern stands for no number.
pub open spec fn is_nan(bits: u32) -> bool {
    magnitude(bits) > INFINITY
}

/// The place of a number on the number line: an integer that orders as the
/// binary32 values do, with both zeros at 0.
pub open spec fn rank(bits: u32) -> int {
    if bits >= SIGN {
        -(magnitude(bits) as int)
    } else {
        magnitude(bits) as int
    }
}

/// `a < b` as binary32 values: false when either is a NaN.
pub open spec fn less(a: u32, b: u32) -> bool {
    !is_nan(a) && !is_nan(b) && rank(a) < rank(b)
}

/// `a == b` as binary32 values: false when either is a NaN, true of the two zeros.
pub open spec fn equal(a: u32, b: u32) -> bool {
    !is_nan(a) && !is_nan(b) && rank(a) == rank(b)
}

/// `clamp(v, lo, hi)`: `lo` where `v < lo`, else `hi` where `hi < v`, else `v`.
/// A NaN `v` comes back as it is.
pub open spec fn clamped(v: u32, lo: u32, hi: u32) -> u32 {
    let raised = if less(v, lo) {
        lo
    } else {
        v
    };
    if less(hi, raised) {
        hi
    } else {
        raised
    }
}

fn abs_bits(bits: u32) -> (m: u32)
    ensures
        m == magnitude(bits),
{
    if bits >= SIGN {
        bits - SIGN
    } else {
        bits
    }
}

/// Tells whether the pattern is a NaN.
pub fn nan(bits: u32) -> (r: bool)
    ensures
        r == is_nan(bits),
{
    abs_bits(bits) > INFINITY
}

/// Decides `a < b` on binary32 bit patterns.
pub fn lt(a: u32, b: u32) -> (r: bool)
    ensures
        r == less(a, b),
{
    if nan(a) || nan(b) {
        return false;
    }
    let ma: u32 = abs_bits(a);
    let mb: u32 = abs_bits(b);
    if a >= SIGN {
        if b >= SIGN {
            ma > mb
        } else {
            ma > 0 || mb > 0
        }
    } else {
        if b >= SIGN {
            false
        } else {
            ma < mb
        }
    }
}

/// Decides `a == b` on binary32 bit patterns.
pub fn eq(a: u32, b: u32) -> (r: bool)
    ensures
        r == equal(a, b),
{
    if nan(a) || nan(b) {
        return false;
    }
    let ma: u32 = abs_bits(a);
    let mb: u32 = abs_bits(b);
    if ma == 0 && mb == 0 {
        true
    } else {
        a == b
    }
}

/// Clamps `v` between `lo` and `hi` by comparison alone.
pub fn clamp(v: u32, lo: u32, hi: u32) -> (r: u32)
    ensures
        r == clamped(v, lo, hi),
{
    let raised: u32 = if lt(v, lo) {
        lo
    } else {
        v
    };
    if lt(hi, raised) {
        hi
    } else {
        raised
    }
}

} // verus!
