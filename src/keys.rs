//! An integer key for every IEEE-754 double whose unsigned order is the order of
//! the doubles: negative values first (larger magnitudes first), then the
//! non-negative values (smaller magnitudes first). `-0.0` sorts just below `+0.0`.
//! The library compares coordinates and hit times through these keys only.
use vstd::prelude::*;

verus! {

/// The sign bit of a double's bit pattern.
pub const SIGN_BIT: u64 = 0x8000_0000_0000_0000;

/// The signed rank of a bit pattern: its position in the order of doubles,
/// counted from `+0.0` (rank 0); `-0.0` has rank -1.
pub open spec fn signed_rank(bits: u64) -> int {
    if bits >= SIGN_BIT {
        -((bits - SIGN_BIT) as int) - 1
    } else {
        bits as int
    }
}

/// The key of a bit pattern: its signed rank shifted into the range of `u64`.
pub open spec fn key_of(bits: u64) -> int {
    signed_rank(bits) + SIGN_BIT as int
}

/// The key of the double with bit pattern `bits`.
pub fn ordered_key(bits: u64) -> (r: u64)
    ensures
        r as int == key_of(bits),
{
    if bits & SIGN_BIT != 0 {
        assert(bits >= SIGN_BIT ==> !bits == 0xffff_ffff_ffff_ffffu64 - bits) by (bit_vector);
        assert(bits & SIGN_BIT != 0 ==> bits >= SIGN_BIT) by (bit_vector);
        !bits
    } else {
        assert(bits & SIGN_BIT == 0 ==> bits < SIGN_BIT && (bits | SIGN_BIT) == bits + SIGN_BIT)
            by (bit_vector);
        bits | SIGN_BIT
    }
}

/// The bit pattern of the double whose key is `key`: the inverse of `ordered_key`.
pub fn bits_of_key(key: u64) -> (r: u64)
    ensures
        key_of(r) == key as int,
{
    if key & SIGN_BIT != 0 {
        assert(key & SIGN_BIT != 0 ==> key >= SIGN_BIT && (key ^ SIGN_BIT) == key - SIGN_BIT)
            by (bit_vector);
        key ^ SIGN_BIT
    } else {
        assert(key & SIGN_BIT == 0 ==> key < SIGN_BIT && !key == 0xffff_ffff_ffff_ffffu64 - key
            && !key >= SIGN_BIT) by (bit_vector);
        !key
    }
}

/// Keys order bit patterns exactly as their signed ranks do, and distinct
/// patterns get distinct keys.
pub proof fn lemma_key_order(a: u64, b: u64)
    ensures
        key_of(a) < key_of(b) <==> signed_rank(a) < signed_rank(b),
        key_of(a) == key_of(b) <==> a == b,
        0 <= key_of(a) <= u64::MAX,
{
}

} // verus!
