//! Order keys for ray parameters.
//!
//! A ray parameter is a real number that the caller holds as 64 bits in
//! sign-and-magnitude form: the highest bit is the sign, the other 63 are
//! the magnitude, and a larger magnitude is a number farther from zero. Bit
//! patterns read as unsigned numbers do not compare as the numbers do: the
//! negative ones come last and in reverse. The order key of a pattern is the
//! unsigned number that does compare right: the number's signed magnitude,
//! moved up by two to the 63rd so that it is never negative.

use vstd::prelude::*;

verus! {

/// The sign bit of a pattern, which is also the key of zero.
pub const SIGN_BIT: u64 = 0x8000_0000_0000_0000;

/// The signed magnitude of a bit pattern: the magnitude, taken negative when
/// the sign bit is set. The two zeros, with and without sign, are both zero.
pub open spec fn signed_magnitude(bits: u64) -> int {
    if bits >= SIGN_BIT {
        -(bits - SIGN_BIT)
    } else {
        bits as int
    }
}

/// The order key of a bit pattern: its signed magnitude, moved up so that
/// zero lands on the sign bit.
pub open spec fn key_of(bits: u64) -> u64 {
    (signed_magnitude(bits) + SIGN_BIT) as u64
}

/// The order key of a bit pattern.
pub fn encode(bits: u64) -> (key: u64)
    ensures
        key == key_of(bits),
        key == signed_magnitude(bits) + SIGN_BIT,
{
    if bits >= SIGN_BIT {
        SIGN_BIT - (bits - SIGN_BIT)
    } else {
        SIGN_BIT + bits
    }
}

/// The bit pattern that a key stands for.
pub open spec fn decoded(key: u64) -> u64 {
    if key >= SIGN_BIT {
        (key - SIGN_BIT) as u64
    } else if key >= 1 {
        (SIGN_BIT + (SIGN_BIT - key)) as u64
    } else {
        u64::MAX
    }
}

/// The bit pattern of which `key` is the order key. Of the two zeros it is
/// the one without sign. The key zero is the key of no pattern; it yields
/// the pattern of all ones.
pub fn decode(key: u64) -> (bits: u64)
    ensures
        bits == decoded(key),
        key >= 1 ==> signed_magnitude(bits) == key - SIGN_BIT,
{
    if key >= SIGN_BIT {
        key - SIGN_BIT
    } else if key >= 1 {
        SIGN_BIT + (SIGN_BIT - key)
    } else {
        u64::MAX
    }
}

/// Keys compare as the numbers do: the key of one pattern is smaller than
/// the key of another exactly when its number is the smaller, and the keys
/// are equal exactly when the numbers are.
pub proof fn lemma_keys_keep_the_order(a: u64, b: u64)
    ensures
        signed_magnitude(a) < signed_magnitude(b) <==> key_of(a) < key_of(b),
        signed_magnitude(a) == signed_magnitude(b) <==> key_of(a) == key_of(b),
        key_of(a) >= 1,
{
}

/// A pattern comes back from its key, but for the zero with sign, which
/// comes back without; and a key comes back from its pattern, but for the
/// key zero.
pub proof fn lemma_round_trip(bits: u64, key: u64)
    ensures
        bits != SIGN_BIT ==> decoded(key_of(bits)) == bits,
        decoded(key_of(SIGN_BIT)) == 0,
        key >= 1 ==> key_of(decoded(key)) == key,
{
}

} // verus!
