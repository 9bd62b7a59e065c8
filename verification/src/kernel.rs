//! The monitor's entire state as one explicit context object, built
//! once at boot and passed into every subsystem call.

use vstd::prelude::*;
use crate::pmm::Pmm;
use crate::mmu::Mmu;
use crate::memory::Ram;
use crate::cpu::Cpu;
use crate::serial::Console;
use crate::applets::Applet;

verus! {

/// Which secure-payload-dispatcher convention the build talks.
#[derive(Clone, Copy, PartialEq, Eq, Structural)]
pub enum SpdKind {
    Tsp,
    Optee,
}

pub struct Kernel {
    pub pmm: Pmm,
    pub mmu: Mmu,
    pub ram: Ram,
    pub cpu: Cpu,
    pub applets: Vec<Applet>,
    pub console: Console,
    pub spd: SpdKind,
    pub load_offset: u64,
    pub stored_ptr: u64,
}

impl Kernel {
    /// The whole-system invariant: the memory managers agree, the boot
    /// space carries the monitor, and every built applet session is a
    /// live dynamic space.
    pub open spec fn wf(self) -> bool {
        &&& self.mmu.inv(self.pmm)
        &&& self.ram.wf()
        &&& self.pmm.within(self.ram)
        &&& self.mmu.has_root(self.cpu.ttbr0_el1)
        &&& !self.mmu.space_at(self.cpu.ttbr0_el1).dynamic
        &&& self.applets@.len() <= 0x10000
        &&& forall|i: int| 0 <= i < self.applets@.len() && (#[trigger] self.applets@[i]).ttbr
            != u64::MAX ==> self.mmu.has_root(self.applets@[i].ttbr) && self.mmu.space_at(
            self.applets@[i].ttbr,
        ).dynamic
        &&& forall|i: int| 0 <= i < self.applets@.len() ==> (#[trigger] self.applets@[i]).init
            + self.load_offset <= u64::MAX && self.applets@[i].smc + self.load_offset <= u64::MAX
    }
}


/// A stack-slot candidate: the fixed top slot or a guard-spaced step
/// below it.
pub open spec fn stack_candidate(va: u64) -> bool {
    &&& va <= 0x7F_FFFF_D000
    &&& (0x7F_FFFF_D000 - va) % 0x4000 == 0
    &&& va >= 0x4000
}

/// Find a free page below the top of the monitor's half for this
/// core's stack, leaving guard space below previous ones, and back it.
/// Returns the new stack top; the sentinel comes back only when every
/// candidate slot is taken or the allocator is dry.
pub fn get_new_stack(mmu: &mut Mmu, pmm: &mut Pmm, ram: &mut Ram, cpu: &Cpu) -> (r: u64)
    requires
        old(mmu).inv(*old(pmm)),
        old(ram).wf(),
        old(pmm).within(*old(ram)),
        old(mmu).has_root(cpu.ttbr0_el1),
    ensures
        final(mmu).inv(*final(pmm)),
        final(ram).wf(),
        final(pmm).within(*final(ram)),
        r != u64::MAX ==> r % 4096 == 0 && final(mmu).mapped(cpu.ttbr0_el1, (r - 4096) as u64),
        r == u64::MAX ==> final(pmm).all_allocated() || (forall|va: u64| stack_candidate(va)
            ==> #[trigger] old(mmu).mapped(cpu.ttbr0_el1, va)),
{
    proof {
        crate::mmu::lemma_prot_clean();
    }
    let mut nstack = crate::mmu::maxmem_lower() - 2 * 4096;
    while !crate::mmu::page_available_el1(mmu, pmm, cpu, nstack)
        invariant
            *mmu == *old(mmu),
            *pmm == *old(pmm),
            *ram == *old(ram),
            old(mmu).inv(*old(pmm)),
            old(ram).wf(),
            old(pmm).within(*old(ram)),
            mmu.has_root(cpu.ttbr0_el1),
            nstack % 4096 == 0,
            nstack <= 0x7F_FFFF_D000,
            (0x7F_FFFF_D000 - nstack) % 0x4000 == 0,
            forall|va: u64| stack_candidate(va) && va > nstack
                ==> #[trigger] old(mmu).mapped(cpu.ttbr0_el1, va),
        decreases nstack,
    {
        // reserve some space for overruns
        if nstack < 4 * 4096 {
            proof {
                assert forall|va: u64| stack_candidate(va) implies #[trigger] old(mmu).mapped(
                    cpu.ttbr0_el1,
                    va,
                ) by {
                    assert(va > nstack);
                }
            }
            return u64::MAX;
        }
        let ghost prev = nstack;
        nstack = nstack - 4 * 4096;
        proof {
            assert forall|va: u64| stack_candidate(va) && va > nstack implies
                #[trigger] old(mmu).mapped(cpu.ttbr0_el1, va) by {
                if va > prev {
                } else {
                    // the only candidate between the two steps is the
                    // slot just found occupied
                    assert(va == prev) by (nonlinear_arith)
                        requires
                            nstack < va <= prev && prev == nstack + 0x4000 && (0x7F_FFFF_D000
                                - va) % 0x4000 == 0 && (0x7F_FFFF_D000 - prev) % 0x4000 == 0
                                && va <= 0x7F_FFFF_D000,
                    ;
                }
            }
        }
    }
    if crate::mmu::alloc_page_el1(mmu, pmm, ram, cpu, nstack, crate::mmu::EL1_RW) != 0 {
        return u64::MAX;
    }
    proof {
        assert(mmu.mapped(cpu.ttbr0_el1, nstack));
    }
    nstack + 4096
}

} // verus!
