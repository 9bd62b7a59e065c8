//! System-call numbers and their dispatch into the kernel.

use vstd::prelude::*;
use crate::kernel::Kernel;
use crate::smc::Control;
use crate::syscall;
use crate::applets;

verus! {

pub const SYSNO_EXIT: u64 = 1;

pub const SYSNO_MMAP: u64 = 2;

pub const SYSNO_MUNMAP: u64 = 3;

pub const SYSNO_STORE_PTR: u64 = 4;

/// Serve one system call: the return value for the trapped context,
/// and what the monitor does next. EXIT never resumes the caller — it
/// re-enters the monitor instead.
pub fn handle(k: &mut Kernel, sysno: u64, args: [u64; 8]) -> (r: (u64, Control))
    requires
        old(k).wf(),
    ensures
        final(k).wf(),
        sysno != SYSNO_EXIT && sysno != SYSNO_MMAP && sysno != SYSNO_MUNMAP && sysno
            != SYSNO_STORE_PTR ==> r.0 == u64::MAX && r.1 is Handled && *final(k) == *old(k),
        sysno == SYSNO_EXIT ==> {
            &&& r.0 == 0
            &&& (args[0] == 0 && (forall|i: int| 0 <= i < old(k).applets@.len()
                ==> (#[trigger] old(k).applets@[i]).ready) ==> r.1 is ReturnEl3
                && final(k).cpu.ttbr1_el1 == 0 && final(k).pmm == old(k).pmm
                && final(k).mmu == old(k).mmu)
            &&& (args[0] != 0 && old(k).spd == crate::kernel::SpdKind::Optee ==> r.1
                == Control::Completion(crate::optee::CALL_DONE, args[1], 0u64, 0u64))
            &&& (args[0] != 0 && old(k).spd == crate::kernel::SpdKind::Tsp ==> r.1 is Halt)
        },
        sysno == SYSNO_MMAP ==> {
            &&& r.1 is Handled
            &&& (!syscall::mmap_valid(args[0], args[1]) ==> r.0 == u64::MAX
                && final(k).mmu.spaces@ == old(k).mmu.spaces@
                && final(k).pmm.bitmap@ == old(k).pmm.bitmap@)
            &&& (r.0 != u64::MAX ==> syscall::mmap_valid(args[0], args[1]) && r.0
                == crate::pmm::adown(args[0] as int))
            &&& (r.0 == u64::MAX ==> !syscall::mmap_valid(args[0], args[1])
                || !old(k).mmu.has_root(old(k).cpu.ttbr1_el1) || final(k).pmm.all_allocated()
                || (final(k).mmu.spaces@ == old(k).mmu.spaces@
                && final(k).pmm.bitmap@ == old(k).pmm.bitmap@))
        },
        sysno == SYSNO_MUNMAP ==> {
            &&& r.1 is Handled
            &&& (args[0] % 4096 == 0 && args[1] <= u64::MAX - 4095 && crate::pmm::aup(
                args[1] as int,
            ) <= 0x80_0000_0000 && args[0] + crate::pmm::aup(args[1] as int) <= u64::MAX
                && old(k).mmu.has_root(old(k).cpu.ttbr1_el1) ==> r.0 == 0)
            &&& (r.0 == 0 ==> forall|m: int| 0 <= m < crate::pmm::aup(args[1] as int) / 4096
                ==> !#[trigger] final(k).mmu.mapped(
                    old(k).cpu.ttbr1_el1,
                    (args[0] + m * 4096) as u64,
                ))
        },
        sysno == SYSNO_STORE_PTR ==> r.0 == 0 && r.1 is Handled && final(k).stored_ptr == args[0],
{
    if sysno == SYSNO_EXIT {
        proof {
            if args[0] == 0 && (forall|i: int| 0 <= i < old(k).applets@.len()
                ==> (#[trigger] old(k).applets@[i]).ready) {
                applets::lemma_all_ready_first_pending(old(k).applets@, 0);
            }
        }
        let c = crate::smc::smc_return(k, args[0], args[1]);
        return (0, c);
    }
    if sysno == SYSNO_MMAP {
        let v = syscall::mmap(k, args[0], args[1], args[2]);
        return (v, Control::Handled);
    }
    if sysno == SYSNO_MUNMAP {
        let v = syscall::munmap(k, args[0], args[1]);
        return (v, Control::Handled);
    }
    if sysno == SYSNO_STORE_PTR {
        let v = applets::store_ptr(k, args[0]);
        return (v, Control::Handled);
    }
    (u64::MAX, Control::Handled)
}

} // verus!
