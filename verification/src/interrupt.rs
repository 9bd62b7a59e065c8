//! Classification of trapped synchronous exceptions from the
//! unprivileged level, and the register frame they arrive in.

use vstd::prelude::*;

verus! {

/// Exception class meaning "synchronous exception from lower level".
pub const AARCH64_EXC_SYNC_AARCH64: u64 = 0x21;

/// Exception-class value of a supervisor call.
pub const ESR_EC_SVC: u32 = 0b010101;

/// A saved register frame: written by the trap path on the way in,
/// constructed by the monitor on the way down to an applet.
pub struct InterruptState {
    pub exc_type: u64,
    pub esr: u64,
    pub saved_sp: u64,
    pub elr: u64,
    pub spsr: u64,
    pub regs: [u64; 31],
}

impl Default for InterruptState {
    fn default() -> (r: Self)
        ensures
            r.exc_type == 0,
            r.esr == 0,
            r.saved_sp == 0,
            r.elr == 0,
            r.spsr == 0,
            forall|i: int| 0 <= i < 31 ==> r.regs[i] == 0,
    {
        InterruptState { exc_type: 0, esr: 0, saved_sp: 0, elr: 0, spsr: 0, regs: [0u64; 31] }
    }
}

/// Exception class field of a syndrome value.
pub fn get_esr_ec(esr: u64) -> (r: u32)
    ensures
        r == (esr >> 26) & 0x3f,
{
    proof {
        assert(((esr >> 26) & 0x3f) < 0x40) by (bit_vector);
    }
    ((esr >> 26) & 0x3f) as u32
}


/// Serve one trapped synchronous exception from the unprivileged
/// level: a supervisor call is decoded and dispatched; anything else
/// is an unclassified trap, which halts.
pub fn handle_sync_lower(k: &mut crate::kernel::Kernel, state: &mut InterruptState) -> (r:
    crate::smc::Control)
    requires
        old(k).wf(),
    ensures
        final(k).wf(),
        (old(state).esr >> 26) & 0x3f != ESR_EC_SVC ==> r is Halt && *final(state) == *old(state),
        (old(state).esr >> 26) & 0x3f == ESR_EC_SVC ==> svc_frame_post(
            *old(k),
            *final(k),
            *old(state),
            *final(state),
            r,
        ),
{
    let ec = get_esr_ec(state.esr);
    if ec == ESR_EC_SVC {
        let sysno = state.regs[8];
        let args: [u64; 8] = [state.regs[0], state.regs[1], state.regs[2], state.regs[3],
            state.regs[4], state.regs[5], state.regs[6], state.regs[7]];
        let out = crate::svc::handle(k, sysno, args);
        state.regs[0] = out.0;
        return out.1;
    }
    crate::log::info(&mut k.console, "Unknown EC, halting...");
    proof {
        keep_wf(old(k), k);
    }
    crate::smc::Control::Halt
}

/// Route one trapped exception by its type; unclassified exceptions
/// halt the system.
pub fn handle_exception(k: &mut crate::kernel::Kernel, state: &mut InterruptState) -> (r:
    crate::smc::Control)
    requires
        old(k).wf(),
    ensures
        final(k).wf(),
        old(state).exc_type != AARCH64_EXC_SYNC_AARCH64 ==> r is Halt && *final(state) == *old(
            state,
        ),
        old(state).exc_type == AARCH64_EXC_SYNC_AARCH64 && (old(state).esr >> 26) & 0x3f
            != ESR_EC_SVC ==> r is Halt && *final(state) == *old(state),
        old(state).exc_type == AARCH64_EXC_SYNC_AARCH64 && (old(state).esr >> 26) & 0x3f
            == ESR_EC_SVC ==> svc_frame_post(*old(k), *final(k), *old(state), *final(state), r),
{
    if state.exc_type == AARCH64_EXC_SYNC_AARCH64 {
        return handle_sync_lower(k, state);
    }
    crate::log::info(&mut k.console, "Unknown exception, halting...");
    proof {
        keep_wf(old(k), k);
    }
    crate::smc::Control::Halt
}

/// What serving a supervisor call does to the trapped frame and the
/// kernel: only the first result register changes, and the result and
/// next control follow the dispatched system call.
pub open spec fn svc_frame_post(k0: crate::kernel::Kernel, k1: crate::kernel::Kernel,
    s0: InterruptState, s1: InterruptState, r: crate::smc::Control) -> bool {
    let sysno = s0.regs[8];
    &&& s1.exc_type == s0.exc_type
    &&& s1.esr == s0.esr
    &&& s1.saved_sp == s0.saved_sp
    &&& s1.elr == s0.elr
    &&& s1.spsr == s0.spsr
    &&& forall|i: int| 1 <= i < 31 ==> s1.regs[i] == s0.regs[i]
    &&& (sysno != crate::svc::SYSNO_EXIT && sysno != crate::svc::SYSNO_MMAP && sysno
        != crate::svc::SYSNO_MUNMAP && sysno != crate::svc::SYSNO_STORE_PTR ==> s1.regs[0]
        == u64::MAX && r is Handled && k1 == k0)
    &&& (sysno == crate::svc::SYSNO_STORE_PTR ==> s1.regs[0] == 0 && r is Handled
        && k1.stored_ptr == s0.regs[0])
    &&& (sysno == crate::svc::SYSNO_EXIT ==> s1.regs[0] == 0)
    &&& (sysno == crate::svc::SYSNO_MMAP ==> r is Handled && (!crate::syscall::mmap_valid(
        s0.regs[0],
        s0.regs[1],
    ) ==> s1.regs[0] == u64::MAX && k1.mmu.spaces@ == k0.mmu.spaces@ && k1.pmm.bitmap@
        == k0.pmm.bitmap@))
    &&& (sysno == crate::svc::SYSNO_MUNMAP ==> r is Handled && (s1.regs[0] == 0 ==> forall|m: int|
        0 <= m < crate::pmm::aup(s0.regs[1] as int) / 4096 ==> !#[trigger] k1.mmu.mapped(
            k0.cpu.ttbr1_el1,
            (s0.regs[0] + m * 4096) as u64,
        )))
}

/// Logging leaves the invariant alone.
proof fn keep_wf(k0: &crate::kernel::Kernel, k1: &crate::kernel::Kernel)
    requires
        k0.wf(),
        k1.pmm == k0.pmm,
        k1.mmu == k0.mmu,
        k1.ram == k0.ram,
        k1.cpu == k0.cpu,
        k1.applets@ == k0.applets@,
        k1.load_offset == k0.load_offset,
    ensures
        k1.wf(),
{
}

} // verus!
