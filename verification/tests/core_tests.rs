//! Allocator, bitmap, alignment and identifier-codec behaviour.

use bl32::math::{align_pow2_down, align_pow2_up};
use bl32::bits::{set_bit, clear_bit, test_bit};
use bl32::bitmap;
use bl32::pmm::Pmm;
use bl32::smc::{encode, decode};
use bl32::mmu::{mask_prot_el0, enforce_prot_el0, inupper, maxmem_upper, maxmem_lower};
use bl32::mmu::{AP_EL0, AP_RO, MMU_PXN, MMU_UXN, PROT_EL0_ALLOWED};

const RAMADDR: u64 = 0x10000;
const RAMSIZE: u64 = 32768;

fn tiny_pmm() -> Pmm {
    // eight pages; page zero, the (empty) image page and the bitmap
    // page are pre-reserved
    Pmm::init(RAMADDR, RAMSIZE, RAMADDR, RAMADDR + 4096)
}

#[test]
fn align_helpers() {
    assert_eq!(align_pow2_down(0x12345, 4096), 0x12000);
    assert_eq!(align_pow2_up(0x12345, 4096), 0x13000);
    assert_eq!(align_pow2_up(0x12000, 4096), 0x12000);
    assert_eq!(align_pow2_down(0, 4096), 0);
}

#[test]
fn bit_helpers() {
    let b = set_bit(0, 3);
    assert_eq!(b, 8);
    assert!(test_bit(b, 3));
    assert!(!test_bit(b, 2));
    assert_eq!(clear_bit(b, 3), 0);
}

#[test]
fn pmm_alloc_distinct_live() {
    let mut p = tiny_pmm();
    let a = p.alloc_page();
    let b = p.alloc_page();
    assert_ne!(a, u64::MAX);
    assert_ne!(b, u64::MAX);
    // no two live allocations name the same page
    assert_ne!(a, b);
}

#[test]
fn pmm_free_then_alloc_returns_page() {
    let mut p = tiny_pmm();
    let a = p.alloc_page();
    assert_ne!(a, u64::MAX);
    p.free(a);
    // first-fit scanning hands the page right back
    let b = p.alloc_page();
    assert_eq!(a, b);
}

#[test]
fn pmm_exhaustion_is_stable() {
    let mut p = tiny_pmm();
    let mut last = 0;
    // bitmap page + first page + image page are taken: six remain
    for _ in 0..6 {
        last = p.alloc_page();
        assert_ne!(last, u64::MAX);
    }
    assert_eq!(p.alloc_page(), u64::MAX);
    assert_eq!(p.alloc_page(), u64::MAX);
    p.free(last);
    assert_eq!(p.alloc_page(), last);
}

#[test]
fn pmm_boot_reservations() {
    let mut p = tiny_pmm();
    // the first free page is the one after the image and bitmap
    let a = p.alloc_page();
    assert_eq!(a, RAMADDR + 2 * 4096);
}

#[test]
fn bitmap_runs() {
    let mut bm: Vec<u8> = vec![0; 2];
    let idx = bitmap::alloc_run(&mut bm, 3);
    assert_eq!(idx, 0);
    let idx2 = bitmap::alloc_run(&mut bm, 3);
    assert_eq!(idx2, 3);
    bitmap::free(&mut bm, 0, 3);
    let idx3 = bitmap::alloc_run(&mut bm, 2);
    assert_eq!(idx3, 0);
    assert_eq!(bitmap::find_free(&bm, 17), -1);
}

#[test]
fn smc_id_round_trip() {
    for range in [0u64, 1, 0x2a, 0x32, 0x3e, 63] {
        for number in [0u64, 1, 7, 0x2000, 0xffff] {
            let id = encode(range, number);
            let (r, n) = decode(id);
            assert_eq!(r, range);
            assert_eq!(n, number);
        }
    }
}

#[test]
fn decode_fields() {
    let (r, n) = decode(0xB200_0005);
    assert_eq!(r, 0x32);
    assert_eq!(n, 5);
}

#[test]
fn protection_mask_stays_in_subset() {
    for p in [0u64, u64::MAX, 0xdead_beef_dead_beef, AP_RO | AP_EL0, 1 << 54] {
        let m = mask_prot_el0(p);
        assert_eq!(m & !PROT_EL0_ALLOWED, 0);
    }
    assert_eq!(mask_prot_el0(u64::MAX), PROT_EL0_ALLOWED);
    assert_eq!(mask_prot_el0(AP_RO | MMU_UXN), AP_RO | MMU_UXN);
}

#[test]
fn protection_enforce_pins_bits() {
    for p in [0u64, u64::MAX, AP_RO, MMU_UXN] {
        let e = enforce_prot_el0(p);
        assert_ne!(e & MMU_PXN, 0);
        assert_ne!(e & AP_EL0, 0);
    }
}

#[test]
fn halves() {
    assert!(inupper(0xFFFF_FFFF_FFFF_F000));
    assert!(!inupper(0x7F_FFFF_F000));
    assert_eq!(maxmem_upper(), 0xFFFF_FFFF_FFFF_F000);
    assert_eq!(maxmem_lower(), 0x7F_FFFF_F000);
}
