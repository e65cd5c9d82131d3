use vstd::prelude::*;
use crate::interval::Interval;

verus! {

/// The bit that tells a negative number from the others in a 64-bit
/// sign-and-magnitude pattern; the bits below it hold the magnitude.
pub const SIGN_BIT: u64 = 0x8000_0000_0000_0000;

/// The pattern of one thousandth as a binary floating-point number of 64
/// bits: the nearest parameter at which a ray may meet a surface, a little
/// beyond its origin, so that a scattered ray does not meet the surface it
/// left.
pub const NEAREST_HIT_BITS: u64 = 0x3F50_624D_D2F1_A9FC;

/// The pattern of positive infinity as such a number.
pub const INFINITY_BITS: u64 = 0x7FF0_0000_0000_0000;

/// Whether `bits` has its sign bit set.
pub open spec fn is_negative(bits: u64) -> bool {
    bits >= SIGN_BIT
}

/// What `bits` holds below the sign bit.
pub open spec fn magnitude(bits: u64) -> int {
    if bits >= SIGN_BIT {
        bits - SIGN_BIT
    } else {
        bits as int
    }
}

/// The ordinal of a sign-and-magnitude pattern: the magnitude itself for a
/// pattern without the sign bit, and for one with it the magnitude counted
/// downward from minus one, so that negative zero stands just below zero.
pub open spec fn ordinal(bits: u64) -> int {
    if is_negative(bits) {
        -magnitude(bits) - 1
    } else {
        magnitude(bits)
    }
}

/// The ordinal of `bits`.
pub fn ordinal_of_bits(bits: u64) -> (k: i64)
    ensures
        k == ordinal(bits),
{
    if bits >= SIGN_BIT {
        let below: u64 = bits - SIGN_BIT;
        -(below as i64) - 1
    } else {
        bits as i64
    }
}

/// The pattern whose ordinal is `k`.
pub fn bits_of_ordinal(k: i64) -> (bits: u64)
    ensures
        ordinal(bits) == k,
        k >= 0 ==> bits == k,
        k < 0 ==> bits == SIGN_BIT - k - 1,
{
    if k < 0 {
        let below: i64 = -(k + 1);
        (below as u64) + SIGN_BIT
    } else {
        k as u64
    }
}

/// Every pattern has an ordinal of its own: two patterns with one ordinal
/// are one pattern.
pub proof fn lemma_ordinal_is_one_to_one(a: u64, b: u64)
    ensures
        ordinal(a) == ordinal(b) <==> a == b,
        i64::MIN <= ordinal(a) <= i64::MAX,
{
}

/// Ordinals keep the order of sign and magnitude: among patterns without
/// the sign bit the greater magnitude has the greater ordinal, among those
/// with it the greater magnitude has the lesser ordinal, and every pattern
/// with the sign bit stands below every pattern without it.
pub proof fn lemma_ordinal_keeps_order(a: u64, b: u64)
    ensures
        !is_negative(a) && !is_negative(b) ==> (ordinal(a) < ordinal(b) <==> magnitude(a) < magnitude(b)),
        is_negative(a) && is_negative(b) ==> (ordinal(a) < ordinal(b) <==> magnitude(a) > magnitude(b)),
        is_negative(a) && !is_negative(b) ==> ordinal(a) < ordinal(b),
{
}

/// Everything in front of a ray: the parameters strictly between one
/// thousandth and infinity.
pub fn in_front() -> (r: Interval)
    ensures
        r.min == ordinal(NEAREST_HIT_BITS),
        r.max == ordinal(INFINITY_BITS),
{
    Interval::new(ordinal_of_bits(NEAREST_HIT_BITS), ordinal_of_bits(INFINITY_BITS))
}

} // verus!
