//! The order of IEEE 754 numbers, read off their bit patterns.
//!
//! Numbers travel through the library as bit patterns. Arithmetic on them is left to the caller;
//! what is decided here is which of two numbers is the larger one.

use vstd::prelude::*;

verus! {

/// The bit pattern of zero, in either width.
pub const ZERO: u64 = 0;

/// The bit pattern of negative infinity in double precision.
pub const NEGATIVE_INFINITY: u64 = 0xFFF0_0000_0000_0000;

/// The pattern of a double without its sign.
pub open spec fn double_magnitude(bits: u64) -> int {
    if bits >= 0x8000_0000_0000_0000 {
        bits - 0x8000_0000_0000_0000
    } else {
        bits as int
    }
}

/// Whether a double is not a number.
pub open spec fn double_is_nan(bits: u64) -> bool {
    double_magnitude(bits) > 0x7FF0_0000_0000_0000
}

/// A number that orders doubles like their values. Both zeros have the rank zero.
pub open spec fn double_rank(bits: u64) -> int {
    if bits >= 0x8000_0000_0000_0000 {
        -double_magnitude(bits)
    } else {
        double_magnitude(bits)
    }
}

/// Whether the first double is larger than the second. Nothing is larger or smaller than what is
/// not a number.
pub open spec fn double_greater(a: u64, b: u64) -> bool {
    !double_is_nan(a) && !double_is_nan(b) && double_rank(a) > double_rank(b)
}

/// Whether a double is not a number.
pub fn is_nan_double(bits: u64) -> (r: bool)
    ensures
        r == double_is_nan(bits),
{
    if bits >= 0x8000_0000_0000_0000 {
        bits > 0xFFF0_0000_0000_0000
    } else {
        bits > 0x7FF0_0000_0000_0000
    }
}

/// The rank of a double, moved up so that it is not negative.
pub fn double_key(bits: u64) -> (r: u64)
    ensures
        r == double_rank(bits) + 0x8000_0000_0000_0000,
{
    if bits >= 0x8000_0000_0000_0000 {
        0x8000_0000_0000_0000 - (bits - 0x8000_0000_0000_0000)
    } else {
        0x8000_0000_0000_0000 + bits
    }
}

/// Whether the first double is larger than the second.
pub fn greater_double(a: u64, b: u64) -> (r: bool)
    ensures
        r == double_greater(a, b),
{
    !is_nan_double(a) && !is_nan_double(b) && double_key(a) > double_key(b)
}

/// The pattern of a single without its sign.
pub open spec fn single_magnitude(bits: u32) -> int {
    if bits >= 0x8000_0000 {
        bits - 0x8000_0000
    } else {
        bits as int
    }
}

/// Whether a single is not a number.
pub open spec fn single_is_nan(bits: u32) -> bool {
    single_magnitude(bits) > 0x7F80_0000
}

/// A number that orders singles like their values. Both zeros have the rank zero.
pub open spec fn single_rank(bits: u32) -> int {
    if bits >= 0x8000_0000 {
        -single_magnitude(bits)
    } else {
        single_magnitude(bits)
    }
}

/// Whether the first single is larger than the second. Nothing is larger or smaller than what is
/// not a number.
pub open spec fn single_greater(a: u32, b: u32) -> bool {
    !single_is_nan(a) && !single_is_nan(b) && single_rank(a) > single_rank(b)
}

/// The bit pattern of one in single precision.
pub const SINGLE_ONE: u32 = 0x3F80_0000;

/// Whether the first single is at least as large as the second.
pub open spec fn single_at_least(a: u32, b: u32) -> bool {
    !single_is_nan(a) && !single_is_nan(b) && single_rank(a) >= single_rank(b)
}

/// Whether the first single is at least as large as the second.
pub fn at_least_single(a: u32, b: u32) -> (r: bool)
    ensures
        r == single_at_least(a, b),
{
    !is_nan_single(a) && !is_nan_single(b) && single_key(a) >= single_key(b)
}

/// Whether a single is not a number.
pub fn is_nan_single(bits: u32) -> (r: bool)
    ensures
        r == single_is_nan(bits),
{
    if bits >= 0x8000_0000 {
        bits > 0xFF80_0000
    } else {
        bits > 0x7F80_0000
    }
}

/// The rank of a single, moved up so that it is not negative.
pub fn single_key(bits: u32) -> (r: u64)
    ensures
        r == single_rank(bits) + 0x8000_0000,
{
    if bits >= 0x8000_0000 {
        0x8000_0000 - (bits - 0x8000_0000) as u64
    } else {
        0x8000_0000 + bits as u64
    }
}

/// Whether the first single is larger than the second.
pub fn greater_single(a: u32, b: u32) -> (r: bool)
    ensures
        r == single_greater(a, b),
{
    !is_nan_single(a) && !is_nan_single(b) && single_key(a) > single_key(b)
}

} // verus!
