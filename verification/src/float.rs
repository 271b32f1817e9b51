//! Single-precision numbers by their bit patterns. Samples, levels and settings
//! are carried and compared as patterns; nothing is computed with them here.

use vstd::prelude::*;

verus! {

/// The bits without the sign.
pub open spec fn magnitude(b: u32) -> u32 {
    b & 0x7FFF_FFFF
}

/// Whether a pattern is a number, and not an infinity.
pub open spec fn finite(b: u32) -> bool {
    magnitude(b) < 0x7F80_0000
}

/// Whether a pattern is no number.
pub open spec fn not_a_number(b: u32) -> bool {
    magnitude(b) > 0x7F80_0000
}

/// The place of a pattern in the order of the numbers. Both zeros are at zero.
pub open spec fn rank(b: u32) -> int {
    if b < 0x8000_0000 {
        magnitude(b) as int
    } else {
        -(magnitude(b) as int)
    }
}

/// Whether the first number is greater. Nothing is greater than what is no
/// number, nor the other way round.
pub open spec fn greater(a: u32, b: u32) -> bool {
    !not_a_number(a) && !not_a_number(b) && rank(a) > rank(b)
}

/// A number brought between two others.
pub open spec fn clamped(v: u32, low: u32, high: u32) -> u32 {
    if greater(low, v) {
        low
    } else if greater(v, high) {
        high
    } else {
        v
    }
}

/// Drops the sign.
#[verifier::allow_in_spec]
pub fn absolute(b: u32) -> (m: u32)
    returns
        magnitude(b),
{
    b & 0x7FFF_FFFF
}

/// Tests for a number that is no infinity.
pub fn is_finite(b: u32) -> (r: bool)
    ensures
        r == finite(b),
{
    absolute(b) < 0x7F80_0000
}

/// Compares two numbers.
pub fn is_greater(a: u32, b: u32) -> (r: bool)
    ensures
        r == greater(a, b),
{
    let x: u32 = absolute(a);
    let y: u32 = absolute(b);
    if x > 0x7F80_0000 || y > 0x7F80_0000 {
        return false;
    }
    let p: i64 = if a < 0x8000_0000 {
        x as i64
    } else {
        -(x as i64)
    };
    let q: i64 = if b < 0x8000_0000 {
        y as i64
    } else {
        -(y as i64)
    };
    p > q
}

/// Brings a number between two others.
pub fn clamp(v: u32, low: u32, high: u32) -> (r: u32)
    ensures
        r == clamped(v, low, high),
{
    if is_greater(low, v) {
        low
    } else if is_greater(v, high) {
        high
    } else {
        v
    }
}

/// A number that was clamped lies between the limits, and clamping it again
/// changes nothing.
pub proof fn law_clamp_stays(v: u32, low: u32, high: u32)
    requires
        finite(v),
        finite(low),
        finite(high),
        rank(low) <= rank(high),
    ensures
        finite(clamped(v, low, high)),
        rank(low) <= rank(clamped(v, low, high)) <= rank(high),
        clamped(clamped(v, low, high), low, high) == clamped(v, low, high),
{
}

} // verus!
