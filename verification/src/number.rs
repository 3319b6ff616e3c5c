//! Numbers as bit patterns.
//!
//! A number is an IEEE-754 binary64 value, held as its 64 bits: one sign bit,
//! eleven exponent bits, fifty-two fraction bits. Comparison and negation are
//! defined here on the bits. Arithmetic and the conversion from and to
//! decimal text are not: the interpreter asks its embedder for them.

use vstd::prelude::*;

verus! {

pub const SIGN: u64 = 0x8000_0000_0000_0000;

pub const EXPONENT: u64 = 0x7ff0_0000_0000_0000;

pub const FRACTION: u64 = 0x000f_ffff_ffff_ffff;

/// Not a number: every exponent bit is set and the fraction is not zero.
pub open spec fn is_nan(bits: u64) -> bool {
    bits & EXPONENT == EXPONENT && bits & FRACTION != 0
}

/// The bits without the sign.
pub open spec fn magnitude(bits: u64) -> u64 {
    bits & !SIGN
}

pub open spec fn is_negative(bits: u64) -> bool {
    bits & SIGN != 0
}

/// An integer that orders the numbers as their values are ordered: the
/// magnitude, negated under a set sign bit. Both zeros have rank zero.
pub open spec fn rank(bits: u64) -> int {
    if is_negative(bits) {
        -(magnitude(bits) as int)
    } else {
        magnitude(bits) as int
    }
}

/// `a == b` as numbers: neither is NaN and they have the same value.
pub open spec fn number_eq(a: u64, b: u64) -> bool {
    !is_nan(a) && !is_nan(b) && rank(a) == rank(b)
}

/// `a < b` as numbers; false if either is NaN.
pub open spec fn number_lt(a: u64, b: u64) -> bool {
    !is_nan(a) && !is_nan(b) && rank(a) < rank(b)
}

/// `a <= b` as numbers; false if either is NaN.
pub open spec fn number_le(a: u64, b: u64) -> bool {
    !is_nan(a) && !is_nan(b) && rank(a) <= rank(b)
}

/// `-a` as a number: the sign bit flipped.
pub open spec fn number_neg(a: u64) -> u64 {
    a ^ SIGN
}

pub fn nan(bits: u64) -> (r: bool)
    ensures
        r == is_nan(bits),
{
    bits & EXPONENT == EXPONENT && bits & FRACTION != 0
}

pub fn equal(a: u64, b: u64) -> (r: bool)
    ensures
        r == number_eq(a, b),
{
    if nan(a) || nan(b) {
        false
    } else {
        let ma = a & !SIGN;
        let mb = b & !SIGN;
        if (a & SIGN != 0) == (b & SIGN != 0) {
            ma == mb
        } else {
            ma == 0 && mb == 0
        }
    }
}

pub fn less(a: u64, b: u64) -> (r: bool)
    ensures
        r == number_lt(a, b),
{
    if nan(a) || nan(b) {
        false
    } else {
        let ma = a & !SIGN;
        let mb = b & !SIGN;
        if a & SIGN != 0 {
            if b & SIGN != 0 {
                ma > mb
            } else {
                ma != 0 || mb != 0
            }
        } else {
            if b & SIGN != 0 {
                false
            } else {
                ma < mb
            }
        }
    }
}

pub fn less_equal(a: u64, b: u64) -> (r: bool)
    ensures
        r == number_le(a, b),
{
    if nan(a) || nan(b) {
        false
    } else {
        less(a, b) || equal(a, b)
    }
}

pub fn negate(a: u64) -> (r: u64)
    ensures
        r == number_neg(a),
{
    a ^ SIGN
}

} // verus!
