//! Order of single-precision numbers, read off their bit patterns.
use vstd::prelude::*;

verus! {

pub const SIGN_BIT: u32 = 0x8000_0000;

/// The magnitude from which on a bit pattern is an infinity or not a number.
pub const FIRST_NON_FINITE: u32 = 0x7f80_0000;

/// A bit pattern without its sign.
pub open spec fn magnitude(bits: u32) -> int {
    if bits >= SIGN_BIT {
        bits - SIGN_BIT
    } else {
        bits as int
    }
}

pub open spec fn finite(bits: u32) -> bool {
    magnitude(bits) < FIRST_NON_FINITE
}

pub fn is_finite(bits: u32) -> (r: bool)
    ensures
        r == finite(bits),
{
    if bits >= SIGN_BIT {
        bits - SIGN_BIT < FIRST_NON_FINITE
    } else {
        bits < FIRST_NON_FINITE
    }
}

/// The place of a number in the total order of bit patterns: negative ones by falling
/// magnitude, then the others by rising magnitude. Minus zero comes right before zero.
pub open spec fn total_rank(bits: u32) -> int {
    if bits >= SIGN_BIT {
        -magnitude(bits) - 1
    } else {
        magnitude(bits)
    }
}

pub fn total_rank_of(bits: u32) -> (r: i64)
    ensures
        r == total_rank(bits),
{
    if bits >= SIGN_BIT {
        -((bits - SIGN_BIT) as i64) - 1
    } else {
        bits as i64
    }
}

/// The rank of a weight. Weights that are not finite rank as minus infinity.
pub open spec fn weight_rank(bits: u32) -> int {
    if finite(bits) {
        total_rank(bits)
    } else {
        -FIRST_NON_FINITE - 1
    }
}

pub fn weight_rank_of(bits: u32) -> (r: i64)
    ensures
        r == weight_rank(bits),
{
    if is_finite(bits) {
        total_rank_of(bits)
    } else {
        -(FIRST_NON_FINITE as i64) - 1
    }
}

/// No weight that is not finite ranks above a finite one.
pub proof fn non_finite_ranks_last(a: u32, b: u32)
    requires
        finite(a),
        !finite(b),
    ensures
        weight_rank(b) < weight_rank(a),
{
}

/// The bit pattern stands for no number.
pub open spec fn nan(bits: u32) -> bool {
    magnitude(bits) > FIRST_NON_FINITE
}

pub fn is_nan(bits: u32) -> (r: bool)
    ensures
        r == nan(bits),
{
    if bits >= SIGN_BIT {
        bits - SIGN_BIT > FIRST_NON_FINITE
    } else {
        bits > FIRST_NON_FINITE
    }
}

/// The place of a number in the order of numbers; both zeros have the same place.
pub open spec fn real_rank(bits: u32) -> int {
    if bits >= SIGN_BIT {
        -magnitude(bits)
    } else {
        magnitude(bits)
    }
}

pub fn real_rank_of(bits: u32) -> (r: i64)
    ensures
        r == real_rank(bits),
{
    if bits >= SIGN_BIT {
        -((bits - SIGN_BIT) as i64)
    } else {
        bits as i64
    }
}

/// `a` is a smaller number than `b`.
pub open spec fn below(a: u32, b: u32) -> bool {
    !nan(a) && !nan(b) && real_rank(a) < real_rank(b)
}

pub fn is_below(a: u32, b: u32) -> (r: bool)
    ensures
        r == below(a, b),
{
    !is_nan(a) && !is_nan(b) && real_rank_of(a) < real_rank_of(b)
}

/// Numbers are ordered as they are: among those without a sign by their bit patterns, among those
/// with one the other way round, and those with a sign before the others. Both zeros are the same
/// number, and what is no number is neither below nor above any.
pub proof fn bit_patterns_order_numbers(a: u32, b: u32)
    ensures
        a < 0x8000_0000 && b <= 0x7f80_0000 && a < b ==> below(a, b) && !below(b, a),
        0x8000_0000 <= a < b && b <= 0xff80_0000 ==> below(b, a) && !below(a, b),
        0x8000_0000 < a <= 0xff80_0000 && b <= 0x7f80_0000 ==> below(a, b),
        a == 0x8000_0000 && b == 0 ==> !below(a, b) && !below(b, a),
        0x7f80_0000 < a < 0x8000_0000 || 0xff80_0000 < a ==> !below(a, b) && !below(b, a),
        !below(a, a),
        finite(a) <==> a < 0x7f80_0000 || 0x8000_0000 <= a < 0xff80_0000,
        nan(a) <==> 0x7f80_0000 < a < 0x8000_0000 || 0xff80_0000 < a,
{
}

/// Finite weights rank as the numbers they are, and two of them alike only when they are the same
/// pattern.
pub proof fn weights_rank_as_numbers(a: u32, b: u32)
    requires
        finite(a),
        finite(b),
    ensures
        below(a, b) ==> weight_rank(a) < weight_rank(b),
        weight_rank(a) == weight_rank(b) <==> a == b,
        weight_rank(a) < weight_rank(b) ==> !below(b, a),
{
}

} // verus!
