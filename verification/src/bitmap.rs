//! Block bitmap used by the applet-side heap: runs of `num` blocks are
//! found, taken and released over a caller-supplied bitmap.

use vstd::prelude::*;
use vstd::arithmetic::div_mod::lemma_fundamental_div_mod;
use crate::bits::{nth_bit, test_bit, set_bit, clear_bit};

verus! {

/// Whether block `i` of the bitmap is taken.
pub open spec fn bm_bit(bm: Seq<u8>, i: int) -> bool {
    0 <= i < bm.len() * 8 && nth_bit(bm[i / 8], (i % 8) as u8)
}

/// Page `i` occupies bit `i % 8` of byte `i / 8`.
proof fn lemma_bit_slot(i: int)
    requires
        i >= 0,
    ensures
        0 <= i % 8 < 8,
        i == 8 * (i / 8) + i % 8,
        0 <= i / 8,
{
    lemma_fundamental_div_mod(i, 8);
}

proof fn lemma_slot_unique(a: int, b: int)
    requires
        a >= 0,
        b >= 0,
        a != b,
        a / 8 == b / 8,
    ensures
        a % 8 != b % 8,
{
    lemma_fundamental_div_mod(a, 8);
    lemma_fundamental_div_mod(b, 8);
}

fn _addref(bitmap: &mut Vec<u8>, offs: u64)
    requires
        offs < old(bitmap)@.len() * 8,
    ensures
        final(bitmap)@.len() == old(bitmap)@.len(),
        bm_bit(final(bitmap)@, offs as int),
        forall|j: int| j != offs ==> bm_bit(final(bitmap)@, j) == bm_bit(old(bitmap)@, j),
{
    proof {
        lemma_bit_slot(offs as int);
        assert(offs as int / 8 < old(bitmap)@.len());
    }
    // the length bounds the byte index within the address space
    let nbytes = bitmap.len();
    let byte = (offs / 8) as usize;
    let bit = (offs % 8) as u8;
    let v = set_bit(bitmap[byte], bit);
    bitmap.set(byte, v);
    proof {
        assert(bitmap@[offs as int / 8] == v);
        assert(nth_bit(v, bit));
        assert(bit == (offs as int % 8) as u8);
        assert(0 <= offs as int && offs < bitmap@.len() * 8);
        assert(bm_bit(bitmap@, offs as int));
        assert forall|j: int| j != offs implies bm_bit(bitmap@, j) == bm_bit(
            old(bitmap)@,
            j,
        ) by {
            if 0 <= j < bitmap@.len() * 8 {
                lemma_bit_slot(j);
                if j / 8 == offs as int / 8 {
                    lemma_slot_unique(j, offs as int);
                }
            }
        }
    }
}

fn _decref(bitmap: &mut Vec<u8>, offs: u64)
    requires
        offs < old(bitmap)@.len() * 8,
    ensures
        final(bitmap)@.len() == old(bitmap)@.len(),
        !bm_bit(final(bitmap)@, offs as int),
        forall|j: int| j != offs ==> bm_bit(final(bitmap)@, j) == bm_bit(old(bitmap)@, j),
{
    proof {
        lemma_bit_slot(offs as int);
        assert(offs as int / 8 < old(bitmap)@.len());
    }
    // the length bounds the byte index within the address space
    let nbytes = bitmap.len();
    let byte = (offs / 8) as usize;
    let bit = (offs % 8) as u8;
    let v = clear_bit(bitmap[byte], bit);
    bitmap.set(byte, v);
    proof {
        assert(bitmap@[offs as int / 8] == v);
        assert(!nth_bit(v, bit));
        assert(!bm_bit(bitmap@, offs as int));
        assert forall|j: int| j != offs implies bm_bit(bitmap@, j) == bm_bit(
            old(bitmap)@,
            j,
        ) by {
            if 0 <= j < bitmap@.len() * 8 {
                lemma_bit_slot(j);
                if j / 8 == offs as int / 8 {
                    lemma_slot_unique(j, offs as int);
                }
            }
        }
    }
}

/// A run of `num` clear bits starting at `s`.
pub open spec fn run_clear(bm: Seq<u8>, s: int, num: int) -> bool {
    s >= 0 && forall|k: int| s <= k < s + num ==> !bm_bit(bm, k)
}

/// Find the first run of `num` clear bits; its first index, or `-1`
/// when no such run exists.
pub fn find_free(bitmap: &Vec<u8>, num: u64) -> (r: i32)
    requires
        num >= 1,
        bitmap@.len() * 8 <= 0x4000_0000,
    ensures
        r >= 0 ==> {
            &&& r + num <= bitmap@.len() * 8
            &&& forall|k: int| r <= k < r + num ==> !bm_bit(bitmap@, k)
            &&& forall|s: int| 0 <= s < r ==> !run_clear(bitmap@, s, num as int)
        },
        r < 0 ==> r == -1 && forall|s: int| !run_clear(bitmap@, s, num as int) || s + num
            > bitmap@.len() * 8,
{
    let total: u64 = (bitmap.len() as u64) * 8;
    let mut matches: u64 = 0;
    let mut p: u64 = 0;
    while p < total
        invariant
            p <= total,
            total == bitmap@.len() * 8,
            total <= 0x4000_0000,
            num >= 1,
            matches <= p,
            matches < num,
            forall|k: int| p - matches <= k < p ==> !bm_bit(bitmap@, k),
            p - matches == 0 || bm_bit(bitmap@, p - matches - 1),
            forall|s: int| 0 <= s && s + num <= p ==> !run_clear(bitmap@, s, num as int),
        decreases total - p,
    {
        proof {
            lemma_bit_slot(p as int);
            assert(p as int / 8 < bitmap@.len());
        }
        let byte = bitmap[(p / 8) as usize];
        if !test_bit(byte, (p % 8) as u8) {
            matches = matches + 1;
            if matches == num {
                let ridx = p + 1 - num;
                proof {
                    assert(byte == bitmap@[p as int / 8]);
                    assert(!nth_bit(byte, (p % 8) as u8));
                    assert(!bm_bit(bitmap@, p as int));
                    assert(forall|k: int| ridx <= k < ridx + num ==> !bm_bit(bitmap@, k));
                    assert forall|s: int| 0 <= s < ridx implies !run_clear(
                        bitmap@,
                        s,
                        num as int,
                    ) by {
                        if s + num <= p {
                        } else {
                            // any earlier run would cross the set bit
                            // just below this clear stretch
                            assert(s < ridx && s + num > p);
                            assert(false);
                        }
                    }
                }
                return ridx as i32;
            }
        } else {
            matches = 0;
        }
        proof {
            assert forall|s: int| 0 <= s && s + num <= p + 1 implies !run_clear(
                bitmap@,
                s,
                num as int,
            ) by {
                if s + num <= p {
                } else {
                    // a run ending here would reach past the last set
                    // bit before the current clear stretch
                    assert(s + num == p + 1);
                    if run_clear(bitmap@, s, num as int) {
                        assert(!bm_bit(bitmap@, p as int));
                        assert(p - matches >= s) by {
                            if (p - matches) as int > 0 {
                                if s <= p - matches - 1 {
                                    assert(!bm_bit(bitmap@, p - matches - 1));
                                    assert(false);
                                }
                            }
                        };
                        assert(false);
                    }
                }
            }
        }
        p = p + 1;
    }
    proof {
        assert forall|s: int| !run_clear(bitmap@, s, num as int) || s + num > bitmap@.len()
            * 8 by {
            if s >= 0 && s + num <= total {
            }
        }
    }
    -1
}

/// Take a run of `num` clear blocks: returns the first block's index and
/// sets its bits, or `u64::MAX` when no such run exists.
pub fn alloc_run(bitmap: &mut Vec<u8>, num: u64) -> (r: u64)
    requires
        num >= 1,
        old(bitmap)@.len() * 8 <= 0x4000_0000,
    ensures
        final(bitmap)@.len() == old(bitmap)@.len(),
        r == u64::MAX ==> final(bitmap)@ == old(bitmap)@ && (forall|s: int|
            !run_clear(old(bitmap)@, s, num as int) || s + num > old(bitmap)@.len() * 8),
        r != u64::MAX ==> {
            &&& r + num <= old(bitmap)@.len() * 8
            &&& forall|k: int| r <= k < r + num ==> !bm_bit(old(bitmap)@, k)
            &&& forall|s: int| 0 <= s < r ==> !run_clear(old(bitmap)@, s, num as int)
            &&& forall|k: int| r <= k < r + num ==> bm_bit(final(bitmap)@, k)
            &&& forall|j: int| !(r <= j < r + num)
                ==> bm_bit(final(bitmap)@, j) == bm_bit(old(bitmap)@, j)
        },
{
    let idx = find_free(bitmap, num);
    if idx < 0 {
        return u64::MAX;
    }
    let idx = idx as u64;
    let mut i: u64 = 0;
    while i < num
        invariant
            i <= num,
            idx + num <= bitmap@.len() * 8,
            bitmap@.len() * 8 <= 0x4000_0000,
            bitmap@.len() == old(bitmap)@.len(),
            forall|k: int| idx <= k < idx + i ==> bm_bit(bitmap@, k),
            forall|j: int| !(idx <= j < idx + i) ==> bm_bit(bitmap@, j) == bm_bit(old(bitmap)@, j),
        decreases num - i,
    {
        _addref(bitmap, idx + i);
        i = i + 1;
    }
    idx
}

/// Release the run of `num` blocks starting at `idx`.
pub fn free(bitmap: &mut Vec<u8>, idx: u64, num: u64)
    requires
        idx + num <= old(bitmap)@.len() * 8,
        old(bitmap)@.len() * 8 <= 0x4000_0000,
    ensures
        final(bitmap)@.len() == old(bitmap)@.len(),
        forall|k: int| idx <= k < idx + num ==> !bm_bit(final(bitmap)@, k),
        forall|j: int| !(idx <= j < idx + num)
            ==> bm_bit(final(bitmap)@, j) == bm_bit(old(bitmap)@, j),
{
    let mut i: u64 = 0;
    while i < num
        invariant
            i <= num,
            idx + num <= bitmap@.len() * 8,
            bitmap@.len() * 8 <= 0x4000_0000,
            bitmap@.len() == old(bitmap)@.len(),
            forall|k: int| idx <= k < idx + i ==> !bm_bit(bitmap@, k),
            forall|j: int| !(idx <= j < idx + i) ==> bm_bit(bitmap@, j) == bm_bit(old(bitmap)@, j),
        decreases num - i,
    {
        _decref(bitmap, idx + i);
        i = i + 1;
    }
}

} // verus!
