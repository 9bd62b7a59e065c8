//! Alignment arithmetic for power-of-two boundaries, plus the common
//! size units used throughout the monitor.

use vstd::prelude::*;
use vstd::arithmetic::power2::{pow2, lemma_pow2_pos};
use vstd::bits::{low_bits_mask, lemma_u64_low_bits_mask_is_mod, lemma_u64_pow2_no_overflow};
use vstd::arithmetic::div_mod::{
    lemma_fundamental_div_mod, lemma_mod_multiples_basic, lemma_mod_bound, lemma_add_mod_noop,
    lemma_small_mod,
};

verus! {

pub const KB: u64 = 1024;
pub const MB: u64 = 1024 * 1024;
pub const GB: u64 = 1024 * 1024 * 1024;

/// A valid alignment is a power of two that fits in a `u64`.
pub open spec fn is_pow2(a: u64) -> bool {
    exists|k: nat| k < 64 && a == pow2(k)
}

/// `align_pow2_down(v, a)` and `align_pow2_up(v, a)` round to multiples of
/// `a` by masking with `a - 1`; this lemma ties that mask to `% a`.
proof fn lemma_mask_is_mod(x: u64, align: u64)
    requires
        is_pow2(align),
    ensures
        align >= 1,
        x & ((align - 1) as u64) == x % align,
        x & !((align - 1) as u64) == x - x % align,
        x % align < align,
{
    let k = choose|k: nat| k < 64 && align == pow2(k);
    lemma_u64_pow2_no_overflow(k);
    lemma_pow2_pos(k);
    let m = (align - 1) as u64;
    assert(low_bits_mask(k) == m);
    lemma_u64_low_bits_mask_is_mod(x, k);
    assert((x & !m) + (x & m) == x) by (bit_vector);
    lemma_mod_bound(x as int, align as int);
}

/// Round `val` down to the previous multiple of `align`.
pub fn align_pow2_down(val: u64, align: u64) -> (r: u64)
    requires
        is_pow2(align),
    ensures
        r == val - val % align,
        r % align == 0,
        r <= val,
        val < r + align,
        val % align == 0 ==> r == val,
{
    proof {
        lemma_mask_is_mod(val, align);
        lemma_fundamental_div_mod(val as int, align as int);
        lemma_mod_multiples_basic((val as int) / (align as int), align as int);
    }
    val & !((align - 1) as u64)
}

/// Round `val` up to the next multiple of `align`.
pub fn align_pow2_up(val: u64, align: u64) -> (r: u64)
    requires
        is_pow2(align),
        val + align - 1 <= u64::MAX,
    ensures
        r % align == 0,
        val <= r,
        r < val + align,
        val % align == 0 ==> r == val,
{
    proof {
        lemma_mask_is_mod(align, align);
    }
    let t = val + (align - 1);
    proof {
        lemma_mask_is_mod(t, align);
        lemma_fundamental_div_mod(t as int, align as int);
        lemma_mod_multiples_basic((t as int) / (align as int), align as int);
        if val % align == 0 {
            lemma_add_mod_noop(val as int, (align - 1) as int, align as int);
            lemma_small_mod((align - 1) as nat, align as nat);
        }
    }
    t & !((align - 1) as u64)
}

/// Expose the page-size alignment fact to callers working with 4 KiB pages.
pub proof fn lemma_pow2_4096()
    ensures
        is_pow2(4096),
        is_pow2(4),
{
    vstd::arithmetic::power2::lemma2_to64();
    assert(pow2(12) == 4096);
    assert(pow2(2) == 4);
}

} // verus!
