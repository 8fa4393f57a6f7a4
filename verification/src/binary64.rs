//! IEEE 754 doubles as 64-bit patterns: one sign bit, eleven exponent bits,
//! fifty-two fraction bits. Samples travel through the pipeline in this form,
//! and every test on them is integer arithmetic on the pattern.

use vstd::prelude::*;

verus! {

/// The sign bit alone: the pattern of negative zero.
pub const SIGN_BIT: u64 = 0x8000_0000_0000_0000;

/// The pattern of positive infinity: all exponent bits set, fraction zero.
pub const INFINITY: u64 = 0x7ff0_0000_0000_0000;

/// The pattern with the sign bit cleared.
pub open spec fn magnitude(b: u64) -> u64 {
    if b >= SIGN_BIT {
        (b - SIGN_BIT) as u64
    } else {
        b
    }
}

/// Whether the sign bit is set.
pub open spec fn is_negative(b: u64) -> bool {
    b >= SIGN_BIT
}

/// Not-a-number: the exponent is all ones and the fraction is not zero.
pub open spec fn is_nan(b: u64) -> bool {
    magnitude(b) > INFINITY
}

/// Positive or negative infinity.
pub open spec fn is_infinite(b: u64) -> bool {
    magnitude(b) == INFINITY
}

/// Zero, subnormal or normal: neither infinite nor not-a-number.
pub open spec fn is_finite(b: u64) -> bool {
    magnitude(b) < INFINITY
}

/// Position of a number on the line of doubles. Patterns of numbers compare
/// as their ranks do; both zeros have rank 0.
pub open spec fn rank(b: u64) -> int {
    if is_negative(b) {
        -(magnitude(b) as int)
    } else {
        magnitude(b) as int
    }
}

/// `a < b` as doubles: false as soon as either side is not-a-number.
pub open spec fn less(a: u64, b: u64) -> bool {
    !is_nan(a) && !is_nan(b) && rank(a) < rank(b)
}

/// `a <= b` as doubles: false as soon as either side is not-a-number.
pub open spec fn less_eq(a: u64, b: u64) -> bool {
    !is_nan(a) && !is_nan(b) && rank(a) <= rank(b)
}

/// Absolute value: the sign bit cleared.
pub fn abs(b: u64) -> (r: u64)
    ensures
        r == magnitude(b),
{
    if b >= SIGN_BIT {
        b - SIGN_BIT
    } else {
        b
    }
}

/// Tells whether a pattern is a not-a-number.
pub fn nan(b: u64) -> (r: bool)
    ensures
        r == is_nan(b),
{
    abs(b) > INFINITY
}

/// Compares two patterns as doubles with `<`.
pub fn lt(a: u64, b: u64) -> (r: bool)
    ensures
        r == less(a, b),
{
    if nan(a) || nan(b) {
        return false;
    }
    let ma = abs(a);
    let mb = abs(b);
    if a >= SIGN_BIT {
        if b >= SIGN_BIT {
            mb < ma
        } else {
            ma > 0 || mb > 0
        }
    } else {
        if b >= SIGN_BIT {
            false
        } else {
            ma < mb
        }
    }
}

/// Compares two patterns as doubles with `<=`.
pub fn le(a: u64, b: u64) -> (r: bool)
    ensures
        r == less_eq(a, b),
{
    if nan(a) || nan(b) {
        return false;
    }
    let ma = abs(a);
    let mb = abs(b);
    if a >= SIGN_BIT {
        if b >= SIGN_BIT {
            mb <= ma
        } else {
            true
        }
    } else {
        if b >= SIGN_BIT {
            ma == 0 && mb == 0
        } else {
            ma <= mb
        }
    }
}

} // verus!
