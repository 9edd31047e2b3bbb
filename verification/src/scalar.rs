//! Real scalars as order keys.
//!
//! A binary64 number is taken by its bit pattern: one sign bit, then 63 bits of magnitude
//! that grow with the absolute value. Its order key is the magnitude with the sign applied.
//! Keys are ordered as the numbers are, both zeros get the key 0, and a pattern that stands
//! for no number gets no key.

use vstd::prelude::*;

verus! {

/// The sign bit of a bit pattern.
pub const SIGN_BIT: u64 = 0x8000_0000_0000_0000;

/// The magnitude of infinity, the largest that stands for a number.
pub const INFINITY_MAGNITUDE: u64 = 0x7ff0_0000_0000_0000;

/// The bits of a pattern below the sign bit.
pub open spec fn magnitude(bits: u64) -> int {
    if bits >= SIGN_BIT {
        bits - SIGN_BIT
    } else {
        bits as int
    }
}

/// Whether a bit pattern stands for a number, infinities included.
pub open spec fn is_number(bits: u64) -> bool {
    magnitude(bits) <= INFINITY_MAGNITUDE
}

/// The order key of a bit pattern: its magnitude, negated where the sign bit is set.
pub open spec fn key_of(bits: u64) -> int {
    if bits >= SIGN_BIT {
        -magnitude(bits)
    } else {
        magnitude(bits)
    }
}

/// Whether `key` is the order key of some number.
pub open spec fn is_key(key: int) -> bool {
    -(INFINITY_MAGNITUDE as int) <= key <= INFINITY_MAGNITUDE as int
}

/// The bit pattern that a key stands for; of the two zeros, the one with a clear sign bit.
pub open spec fn bits_of(key: int) -> int {
    if key < 0 {
        SIGN_BIT - key
    } else {
        key
    }
}

/// The order key of the number with bit pattern `bits`; `None` where `bits` stands for no
/// number.
pub fn order_key(bits: u64) -> (key: Option<i64>)
    ensures
        key.is_some() <==> is_number(bits),
        key.is_some() ==> key.unwrap() == key_of(bits),
{
    if bits >= SIGN_BIT {
        let below: u64 = bits - SIGN_BIT;
        if below > INFINITY_MAGNITUDE {
            None
        } else {
            Some(-(below as i64))
        }
    } else if bits > INFINITY_MAGNITUDE {
        None
    } else {
        Some(bits as i64)
    }
}

/// The bit pattern of the number with order key `key`; `None` where `key` is the key of no
/// number.
pub fn key_bits(key: i64) -> (bits: Option<u64>)
    ensures
        bits.is_some() <==> is_key(key as int),
        bits.is_some() ==> bits.unwrap() == bits_of(key as int),
{
    if key > INFINITY_MAGNITUDE as i64 || key < -(INFINITY_MAGNITUDE as i64) {
        None
    } else if key < 0 {
        Some(SIGN_BIT + ((-key) as u64))
    } else {
        Some(key as u64)
    }
}

/// Every number has a key, and the pattern of that key has the same key again. The pattern
/// itself comes back too, unless it is the zero with the sign bit set.
pub proof fn lemma_key_round_trip(bits: u64)
    requires
        is_number(bits),
    ensures
        is_key(key_of(bits)),
        0 <= bits_of(key_of(bits)) <= u64::MAX,
        is_number(bits_of(key_of(bits)) as u64),
        key_of(bits_of(key_of(bits)) as u64) == key_of(bits),
        bits != SIGN_BIT ==> bits_of(key_of(bits)) == bits,
{
}

/// Every key is the key of the pattern it stands for.
pub proof fn lemma_bits_round_trip(key: int)
    requires
        is_key(key),
    ensures
        0 <= bits_of(key) <= u64::MAX,
        is_number(bits_of(key) as u64),
        key_of(bits_of(key) as u64) == key,
{
}

/// The sign of a key is the sign of its number: the key is 0 for the two zeros and for
/// nothing else, and negative exactly for a number other than zero whose sign bit is set.
pub proof fn lemma_key_sign(bits: u64)
    requires
        is_number(bits),
    ensures
        key_of(bits) == 0 <==> bits == 0 || bits == SIGN_BIT,
        key_of(bits) < 0 <==> bits > SIGN_BIT,
{
}

/// Between two numbers of the same sign the keys are ordered as the magnitudes are, the other
/// way round where the sign bit is set; and no key of a number with the sign bit set lies
/// above the key of a number with the sign bit clear.
pub proof fn lemma_key_order(a: u64, b: u64)
    requires
        is_number(a),
        is_number(b),
    ensures
        a < SIGN_BIT && b < SIGN_BIT ==> (key_of(a) < key_of(b) <==> a < b),
        a >= SIGN_BIT && b >= SIGN_BIT ==> (key_of(a) < key_of(b) <==> a > b),
        a >= SIGN_BIT && b < SIGN_BIT ==> key_of(a) <= key_of(b),
{
}

} // verus!
