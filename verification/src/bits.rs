//! Single-bit operations on bitmap bytes, with their logical reading.

use vstd::prelude::*;

verus! {

/// Whether bit `j` of `b` is set.
pub open spec fn nth_bit(b: u8, j: u8) -> bool {
    (b >> j) & 1 == 1
}

pub fn test_bit(b: u8, j: u8) -> (r: bool)
    requires
        j < 8,
    ensures
        r == nth_bit(b, j),
{
    (b >> j) & 1 == 1
}

pub fn set_bit(b: u8, j: u8) -> (r: u8)
    requires
        j < 8,
    ensures
        nth_bit(r, j),
        forall|k: u8| k < 8 && k != j ==> nth_bit(r, k) == nth_bit(b, k),
{
    let r = b | (1u8 << j);
    proof {
        assert((r >> j) & 1 == 1 && forall|k: u8|
            k < 8 && k != j ==> ((r >> k) & 1 == 1) == ((b >> k) & 1 == 1)) by (bit_vector)
            requires
                j < 8 && r == b | (1u8 << j),
        ;
    }
    r
}

pub fn clear_bit(b: u8, j: u8) -> (r: u8)
    requires
        j < 8,
    ensures
        !nth_bit(r, j),
        forall|k: u8| k < 8 && k != j ==> nth_bit(r, k) == nth_bit(b, k),
{
    let r = b & !(1u8 << j);
    proof {
        assert((r >> j) & 1 == 0 && forall|k: u8|
            k < 8 && k != j ==> ((r >> k) & 1 == 1) == ((b >> k) & 1 == 1)) by (bit_vector)
            requires
                j < 8 && r == b & !(1u8 << j),
        ;
    }
    r
}

/// A byte with all eight bits set can only be `0xff`.
pub proof fn lemma_full_byte(b: u8)
    requires
        forall|k: u8| k < 8 ==> nth_bit(b, k),
    ensures
        b == 0xff,
{
    assert(nth_bit(b, 0) && nth_bit(b, 1) && nth_bit(b, 2) && nth_bit(b, 3) && nth_bit(b, 4)
        && nth_bit(b, 5) && nth_bit(b, 6) && nth_bit(b, 7));
    assert(((b >> 0u8) & 1 == 1 && (b >> 1u8) & 1 == 1 && (b >> 2u8) & 1 == 1
        && (b >> 3u8) & 1 == 1 && (b >> 4u8) & 1 == 1 && (b >> 5u8) & 1 == 1
        && (b >> 6u8) & 1 == 1 && (b >> 7u8) & 1 == 1) ==> b == 0xff) by (bit_vector);
}

} // verus!
