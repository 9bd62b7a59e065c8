//! System calls an applet may make against its own address space.

use vstd::prelude::*;
use crate::kernel::Kernel;
use crate::mmu;
use crate::mmu::{VA_RESERVED_START, VA_RESERVED_STOP, PAGE_SIZE, lemma_space_at};
use crate::math::lemma_pow2_4096;
use crate::pmm::{adown, aup, lemma_aup_unique};

verus! {

/// Whether an mmap request for `[addr, addr + size)` names a legal
/// applet range: page-rounded, entirely in the upper half, of sane
/// size, and clear of the reserved staging window. The end-exclusive
/// wrap guard keeps the very top page of the upper half out of reach.
pub open spec fn mmap_valid(addr: u64, size: u64) -> bool {
    let raddr = adown(addr as int);
    let rsize = aup(size as int);
    &&& size + 4095 <= u64::MAX
    &&& rsize <= 0x80_0000_0000
    &&& mmu::spec_inupper(addr)
    &&& raddr + rsize <= u64::MAX
    &&& mmu::spec_inupper((raddr + rsize - 1) as u64)
    &&& {
        let lo = (raddr as u64) & 0x7F_FFFF_FFFF;
        !(lo < VA_RESERVED_STOP && VA_RESERVED_START < lo + rsize)
    }
}

/// Map `size` bytes of fresh memory at (page-rounded) `addr` in the
/// calling applet's address space, under a protection bounded to the
/// unprivileged subset and forced unprivileged-only. An invalid range
/// — outside the upper half or overlapping the reserved staging
/// window — is rejected with the failure sentinel and the page tables
/// untouched.
pub fn mmap(k: &mut Kernel, addr: u64, size: u64, prot: u64) -> (r: u64)
    requires
        old(k).wf(),
    ensures
        final(k).wf(),
        final(k).applets@ == old(k).applets@,
        !mmap_valid(addr, size) ==> r == u64::MAX && final(k).mmu.spaces@ == old(k).mmu.spaces@
            && final(k).pmm.bitmap@ == old(k).pmm.bitmap@,
        !old(k).mmu.has_root(old(k).cpu.ttbr1_el1) ==> r == u64::MAX && final(k).mmu.spaces@
            == old(k).mmu.spaces@,
        r != u64::MAX ==> {
            let ttbr = old(k).cpu.ttbr1_el1;
            let base = adown(addr as int);
            &&& mmap_valid(addr, size)
            &&& r == base
            &&& r % 4096 == 0
            &&& forall|m: int| #![trigger final(k).mmu.mapped(ttbr, ((base + m * 4096)) as u64)]
                0 <= m < aup(size as int) / 4096 ==> {
                let e = final(k).mmu.entry_at(ttbr, ((base + m * 4096)) as u64);
                let p = final(k).mmu.translate(ttbr, ((base + m * 4096)) as u64);
                &&& final(k).mmu.mapped(ttbr, ((base + m * 4096)) as u64)
                &&& p != u64::MAX
                &&& e == (p | ((prot & mmu::PROT_EL0_ALLOWED) | mmu::MMU_PXN | mmu::AP_EL0)
                    | mmu::MMU_ENTRY_NEXT_PAGE)
                &&& !old(k).pmm.allocated(old(k).pmm.page_index(p))
                &&& forall|b: int| p <= b < p + 4096 ==> final(k).ram.byte_at(b) == 0
            }
            &&& forall|va2: u64| #[trigger] final(k).mmu.entry_at(ttbr, va2)
                == old(k).mmu.entry_at(ttbr, va2) || (exists|m: int|
                0 <= m < aup(size as int) / 4096 && mmu::vpn_of(va2) == #[trigger] mmu::vpn_of(
                    ((base + m * 4096)) as u64,
                ))
        },
        mmap_valid(addr, size) && old(k).mmu.has_root(old(k).cpu.ttbr1_el1) && !(forall|m: int|
            0 <= m < aup(size as int) / 4096 ==> !#[trigger] old(k).mmu.mapped(
                old(k).cpu.ttbr1_el1,
                ((adown(addr as int) + m * 4096)) as u64,
            )) ==> r == u64::MAX && final(k).mmu.spaces@ == old(k).mmu.spaces@
            && final(k).pmm.bitmap@ == old(k).pmm.bitmap@,
        r == u64::MAX ==> !mmap_valid(addr, size) || !old(k).mmu.has_root(old(k).cpu.ttbr1_el1)
            || (!(forall|m: int| 0 <= m < aup(size as int) / 4096
            ==> !#[trigger] old(k).mmu.mapped(old(k).cpu.ttbr1_el1, ((adown(addr as int) + m
                * 4096)) as u64)) && final(k).mmu.spaces@ == old(k).mmu.spaces@
            && final(k).pmm.bitmap@ == old(k).pmm.bitmap@) || final(k).pmm.all_allocated(),
{
    proof {
        lemma_pow2_4096();
    }
    if size > u64::MAX - 4095 {
        return u64::MAX;
    }
    let rsize = crate::math::align_pow2_up(size, PAGE_SIZE);
    let raddr = crate::math::align_pow2_down(addr, PAGE_SIZE);
    if rsize > 0x80_0000_0000 {
        return u64::MAX;
    }
    proof {
        lemma_aup_unique(size as int, rsize as int);
    }
    // the requested range must lie in the applet half
    if !mmu::inupper(addr) {
        return u64::MAX;
    }
    proof {
        assert(addr >= 0x8000_0000_0000_0000u64) by (bit_vector)
            requires
                addr & 0x8000_0000_0000_0000u64 != 0,
        ;
    }
    if raddr > u64::MAX - rsize {
        return u64::MAX;
    }
    if !mmu::inupper(raddr + rsize - 1) {
        return u64::MAX;
    }
    // the reserved staging window is never handed out
    let lo = raddr & 0x7F_FFFF_FFFF;
    if lo < VA_RESERVED_STOP && VA_RESERVED_START < lo + rsize {
        return u64::MAX;
    }
    let mut rprot = mmu::mask_prot_el0(prot);
    if rprot != prot {
        crate::log::bug(&mut k.console, "Had to mask out protection value from EL0");
    }
    rprot = mmu::enforce_prot_el0(rprot);
    let ttbr = k.cpu.read_ttbr1_el1();
    let found = k.mmu.find_space(ttbr);
    if found.is_none() {
        return u64::MAX;
    }
    let npages = (rsize / 4096) as i32;
    proof {
        assert(rprot & mmu::OA_MASK == 0 && rprot & (mmu::MMU_ENTRY_NEXT_TBL
            | mmu::MMU_ENTRY_NEXT_PAGE) == 0) by (bit_vector)
            requires
                rprot == (prot & mmu::PROT_EL0_ALLOWED) | mmu::MMU_PXN | mmu::AP_EL0,
        ;
        vstd::arithmetic::div_mod::lemma_fundamental_div_mod(rsize as int, 4096);
        let i = match found {
            Some(i) => i as int,
            None => 0,
        };
        lemma_space_at(k.mmu, k.pmm, i);
    }
    proof {
        assert(rsize == aup(size as int));
        assert(raddr == adown(addr as int));
        assert(mmap_valid(addr, size));
    }
    let ghost k0 = *k;
    let res = mmu::alloc_pages(&mut k.mmu, &mut k.pmm, &mut k.ram, ttbr, raddr, npages, rprot);
    proof {
        restore_wf_syscall(&k0, k);
    }
    if res != 0 {
        proof {
            if res == i32::MIN {
                let m0 = choose|m: int|
                    0 <= m < npages && #[trigger] old(k).mmu.mapped(
                        old(k).cpu.ttbr1_el1,
                        (raddr + m * 4096) as u64,
                    );
                assert(((adown(addr as int) + m0 * 4096)) as u64 == (raddr + m0 * 4096) as u64);
                assert(old(k).mmu.mapped(
                    old(k).cpu.ttbr1_el1,
                    ((adown(addr as int) + m0 * 4096)) as u64,
                ));
            }
        }
        return u64::MAX;
    }
    proof {
        let p = aup(size as int) / 4096;
        assert(p == npages as int);
        let base = adown(addr as int);
        assert forall|m: int| #![trigger k.mmu.mapped(ttbr, ((base + m * 4096)) as u64)]
            0 <= m < p implies {
            let e = k.mmu.entry_at(ttbr, ((base + m * 4096)) as u64);
            let pm2 = k.mmu.translate(ttbr, ((base + m * 4096)) as u64);
            &&& k.mmu.mapped(ttbr, ((base + m * 4096)) as u64)
            &&& pm2 != u64::MAX
            &&& e == (pm2 | ((prot & mmu::PROT_EL0_ALLOWED) | mmu::MMU_PXN | mmu::AP_EL0)
                | mmu::MMU_ENTRY_NEXT_PAGE)
            &&& !old(k).pmm.allocated(old(k).pmm.page_index(pm2))
            &&& forall|b: int| pm2 <= b < pm2 + 4096 ==> k.ram.byte_at(b) == 0
        } by {
            let va = ((base + m * 4096)) as u64;
            assert(va == (raddr + m * 4096) as u64);
            let pm = k.mmu.translate(ttbr, (raddr + m * 4096) as u64);
            assert(pm != u64::MAX);
            let e = k.mmu.entry_at(ttbr, (raddr + m * 4096) as u64);
            assert(e == (pm | rprot | mmu::MMU_ENTRY_NEXT_PAGE));
            assert(k.mmu.mapped(ttbr, va) && k.mmu.entry_at(ttbr, va) == e);
            assert(!old(k).pmm.allocated(old(k).pmm.page_index(pm)));
            assert(forall|b: int| pm <= b < pm + 4096 ==> k.ram.byte_at(b) == 0);
        }
        assert forall|va2: u64| #[trigger] k.mmu.entry_at(ttbr, va2) == old(k).mmu.entry_at(
            ttbr,
            va2,
        ) || (exists|m: int|
            0 <= m < p && mmu::vpn_of(va2) == #[trigger] mmu::vpn_of(
                ((base + m * 4096)) as u64,
            )) by {
            if k.mmu.entry_at(ttbr, va2) == old(k).mmu.entry_at(ttbr, va2) {
            } else {
                let m = choose|m: int|
                    0 <= m < npages && mmu::vpn_of(va2) == #[trigger] mmu::vpn_of(
                        (raddr + m * 4096) as u64,
                    );
                assert(((base + m * 4096)) as u64 == (raddr + m * 4096) as u64);
                assert(0 <= m < p && mmu::vpn_of(va2) == mmu::vpn_of(((base + m * 4096)) as u64));
            }
        }
    }
    raddr
}

/// The kernel invariant after address-space work on the active applet
/// space.
proof fn restore_wf_syscall(k0: &Kernel, k1: &Kernel)
    requires
        k0.wf(),
        k1.mmu.inv(k1.pmm),
        k1.ram.wf(),
        k1.pmm.within(k1.ram),
        k1.cpu == k0.cpu,
        k1.applets@ == k0.applets@,
        k1.load_offset == k0.load_offset,
        k1.mmu.spaces@.len() == k0.mmu.spaces@.len(),
        forall|i: int| 0 <= i < k0.mmu.spaces@.len()
            ==> (#[trigger] k1.mmu.spaces@[i]).root.addr == k0.mmu.spaces@[i].root.addr
                && k1.mmu.spaces@[i].dynamic == k0.mmu.spaces@[i].dynamic,
    ensures
        k1.wf(),
{
    assert forall|i: int|
        0 <= i < k1.applets@.len() && (#[trigger] k1.applets@[i]).ttbr != u64::MAX implies
        k1.mmu.has_root(k1.applets@[i].ttbr) && k1.mmu.space_at(k1.applets@[i].ttbr).dynamic by {
        let root = k0.applets@[i].ttbr;
        let j = k0.mmu.space_index(root);
        lemma_space_at(k0.mmu, k0.pmm, j);
        assert(k1.mmu.spaces@[j].root.addr == root);
        assert(k1.mmu.has_root(root));
        lemma_space_at(k1.mmu, k1.pmm, j);
    }
    {
        let root = k0.cpu.ttbr0_el1;
        let j = k0.mmu.space_index(root);
        lemma_space_at(k0.mmu, k0.pmm, j);
        assert(k1.mmu.spaces@[j].root.addr == root);
        assert(k1.mmu.has_root(root));
        lemma_space_at(k1.mmu, k1.pmm, j);
        assert(!k1.mmu.space_at(root).dynamic);
    }
}

/// Unmap `size` (page-rounded) bytes at `addr` from the calling
/// applet's address space, releasing the backing pages.
pub fn munmap(k: &mut Kernel, addr: u64, size: u64) -> (r: u64)
    requires
        old(k).wf(),
    ensures
        final(k).wf(),
        final(k).applets@ == old(k).applets@,
        addr % 4096 != 0 ==> r == u64::MAX && *final(k) == *old(k),
        addr % 4096 == 0 && size <= u64::MAX - 4095 && aup(size as int) <= 0x80_0000_0000 && addr
            + aup(size as int) <= u64::MAX && old(k).mmu.has_root(old(k).cpu.ttbr1_el1) ==> r == 0,
        r == 0 ==> {
            let ttbr = old(k).cpu.ttbr1_el1;
            &&& addr % 4096 == 0
            &&& old(k).mmu.has_root(ttbr)
            &&& forall|m: int| 0 <= m < aup(size as int) / 4096
                ==> !#[trigger] final(k).mmu.mapped(ttbr, (addr + m * 4096) as u64)
            &&& (old(k).mmu.space_at(ttbr).dynamic ==> forall|m: int|
                #![trigger old(k).mmu.entry_at(ttbr, (addr + m * 4096) as u64)]
                0 <= m < aup(size as int) / 4096 && old(k).mmu.entry_at(
                    ttbr,
                    (addr + m * 4096) as u64,
                ) != 0 ==> !final(k).pmm.allocated(
                    old(k).pmm.page_index(
                        mmu::oa_of(old(k).mmu.entry_at(ttbr, (addr + m * 4096) as u64)),
                    ),
                ))
        },
{
    proof {
        lemma_pow2_4096();
    }
    if size > u64::MAX - 4095 {
        return u64::MAX;
    }
    let rsize = crate::math::align_pow2_up(size, PAGE_SIZE);
    proof {
        lemma_aup_unique(size as int, rsize as int);
    }
    // the caller must hand back the address it was given
    let ra = crate::math::align_pow2_down(addr, PAGE_SIZE);
    if ra != addr {
        return u64::MAX;
    }
    if rsize > 0x80_0000_0000 || addr > u64::MAX - rsize {
        return u64::MAX;
    }
    let ttbr = k.cpu.read_ttbr1_el1();
    let found = k.mmu.find_space(ttbr);
    if found.is_none() {
        return u64::MAX;
    }
    let npages = (rsize / 4096) as i32;
    proof {
        vstd::arithmetic::div_mod::lemma_fundamental_div_mod(rsize as int, 4096);
    }
    let ghost k0 = *k;
    mmu::unmap_pages(&mut k.mmu, &mut k.pmm, ttbr, addr, npages);
    proof {
        restore_wf_syscall(&k0, k);
        assert(aup(size as int) / 4096 == npages as int);
    }
    0
}

} // verus!
