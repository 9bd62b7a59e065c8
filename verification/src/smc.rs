//! The SMC router: decode incoming call identifiers, dispatch across
//! the configured secure-payload-dispatcher conventions, and handle the
//! monitor re-entry when an applet finishes.

use vstd::prelude::*;
use crate::kernel::{Kernel, SpdKind};
use crate::applets;
use crate::applets::{Resumption, BootStep, first_pending};
use crate::memory::NsRam;
use crate::tsp;
use crate::optee;

verus! {

pub const SMC_TYPE_FAST: u64 = 1;

pub const FUNCID_TYPE_SHIFT: u64 = 31;

pub const FUNCID_OEN_SHIFT: u64 = 24;

pub const FUNCID_OEN_MASK: u64 = 0x3f;

pub const FUNCID_NUM_MASK: u64 = 0xffff;

/// The service range that routes straight to the applet manager.
pub const APPLET_SVCID: u64 = 0x2a;

/// The range and number fields of a call identifier.
pub open spec fn spec_decode(id: u64) -> (u64, u64) {
    ((id >> FUNCID_OEN_SHIFT) & FUNCID_OEN_MASK, id & FUNCID_NUM_MASK)
}

/// Pack a fast 32-bit call identifier from its owning range and
/// function number.
pub fn encode(range: u64, number: u64) -> (r: u64)
    requires
        range < 64,
        number <= 0xffff,
    ensures
        r == ((1u64 << 31) | (range << 24) | number),
        spec_decode(r) == (range, number),
{
    let r = (1u64 << 31) | (range << 24) | number;
    proof {
        assert(((((1u64 << 31) | (range << 24) | number) >> FUNCID_OEN_SHIFT) & FUNCID_OEN_MASK)
            == range && (((1u64 << 31) | (range << 24) | number) & FUNCID_NUM_MASK) == number)
            by (bit_vector)
            requires
                range < 64 && number <= 0xffff,
        ;
    }
    r
}

/// Unpack a call identifier into its owning range and function number.
pub fn decode(id: u64) -> (r: (u64, u64))
    ensures
        r == spec_decode(id),
        r.0 < 64,
        r.1 <= 0xffff,
{
    proof {
        assert(((id >> 24) & 0x3f) < 64 && (id & 0xffff) <= 0xffff) by (bit_vector);
    }
    ((id >> FUNCID_OEN_SHIFT) & FUNCID_OEN_MASK, id & FUNCID_NUM_MASK)
}

/// Packing then unpacking gives back the same range and number, for
/// every valid 6-bit range and 16-bit number.
pub proof fn lemma_smc_id_round_trip(range: u64, number: u64)
    requires
        range < 64,
        number <= 0xffff,
    ensures
        spec_decode((1u64 << 31) | (range << 24) | number) == (range, number),
{
    assert(((((1u64 << 31) | (range << 24) | number) >> FUNCID_OEN_SHIFT) & FUNCID_OEN_MASK)
        == range && (((1u64 << 31) | (range << 24) | number) & FUNCID_NUM_MASK) == number)
        by (bit_vector)
        requires
            range < 64 && number <= 0xffff,
    ;
}

/// What the monitor does next after a routed call or a re-entry.
pub enum Control {
    Entered(Resumption),
    ReturnEl3,
    Completion(u64, u64, u64, u64),
    Halt,
    Handled,
}

/// Route one incoming call by its owning service range: the arithmetic
/// payload, the applet manager (under two ranges), or — for any other
/// range — a logged no-op.
pub fn smc_handler(k: &mut Kernel, ns: &NsRam, args: &mut [u64; 8]) -> (r: Control)
    requires
        old(k).wf(),
        ns.wf(),
    ensures
        final(k).wf(),
        ({
            let range = spec_decode(old(args)[0]).0;
            let func = spec_decode(old(args)[0]).1;
            &&& (range != tsp::SVCID && range != optee::SVCID && range != APPLET_SVCID ==> r
                is Handled && final(args)@ == old(args)@)
            &&& (range == tsp::SVCID ==> {
                &&& (r is Halt <==> (func == tsp::FNID_DIV && old(args)[2] == 0))
                &&& (r is Halt || r is Handled)
                &&& (r is Handled ==> final(args)[1] == tsp::spec_result(
                    func,
                    old(args)[1],
                    old(args)[2],
                ))
            })
            &&& ((range == optee::SVCID || range == APPLET_SVCID) ==> {
                &&& (r is Entered || r is Handled)
                &&& (r is Handled ==> final(args)[1] == u64::MAX && final(args)[2] == 0
                    && final(args)[3] == 0)
                &&& (r is Entered ==> final(args)[1] == 0)
                &&& (func < old(k).applets@.len() && r is Entered ==> {
                    let res = r->Entered_0;
                    &&& res.state.regs[0] == old(args)[0]
                    &&& res.state.regs[1] == old(args)[1]
                    &&& res.state.regs[3] == old(args)[3]
                    &&& res.state.spsr == 0
                })
            })
        }),
{
    let parts = decode(args[0]);
    let svcrange = parts.0;
    let func = parts.1;
    if svcrange == tsp::SVCID {
        let out = tsp::smc_handler(&mut k.console, func, args);
        proof {
            keep_wf_console(old(k), k);
        }
        if out.1 {
            return Control::Halt;
        }
        return Control::Handled;
    }
    if svcrange == optee::SVCID || svcrange == APPLET_SVCID {
        let out = applets::smc_handler(k, ns, func, args);
        match out {
            Some(res) => {
                return Control::Entered(res);
            },
            None => {
                return Control::Handled;
            },
        }
    }
    crate::log::info(&mut k.console, "Invalid svc range");
    proof {
        keep_wf_console(old(k), k);
    }
    Control::Handled
}

/// The console is not part of the invariant.
proof fn keep_wf_console(k0: &Kernel, k1: &Kernel)
    requires
        k0.wf(),
        k1.pmm == k0.pmm,
        k1.mmu == k0.mmu,
        k1.ram == k0.ram,
        k1.cpu == k0.cpu,
        k1.applets@ == k0.applets@,
        k1.load_offset == k0.load_offset,
    ensures
        k1.wf(),
{
}

/// The monitor re-entry: an applet's terminating exit lands here. A
/// zero function id completes an initialization drop and advances the
/// boot walk; once every applet is ready the per-applet selector is
/// torn down and control goes back to the calling firmware. A nonzero
/// id is a normal service completion forwarded per the configured
/// convention.
pub fn smc_return(k: &mut Kernel, func: u64, ret: u64) -> (r: Control)
    requires
        old(k).wf(),
    ensures
        final(k).wf(),
        func == 0 ==> {
            &&& (first_pending(old(k).applets@, 0) == old(k).applets@.len() ==> r is ReturnEl3
                && final(k).cpu.ttbr1_el1 == 0 && (forall|i: int|
                0 <= i < final(k).applets@.len() ==> (#[trigger] final(k).applets@[i]).ready))
            &&& ((forall|i: int| 0 <= i < old(k).applets@.len()
                ==> (#[trigger] old(k).applets@[i]).ready) ==> r is ReturnEl3 && final(k).pmm
                == old(k).pmm && final(k).mmu == old(k).mmu && final(k).ram == old(k).ram
                && final(k).applets@ == old(k).applets@)
            &&& (r is Halt ==> final(k).pmm.all_allocated())
            &&& (first_pending(old(k).applets@, 0) < old(k).applets@.len() ==> r is Entered || r
                is Halt)
            &&& (r matches Control::Entered(res) ==> {
                let p = first_pending(old(k).applets@, 0);
                &&& 0 <= p < old(k).applets@.len()
                &&& !old(k).applets@[p].ready
                &&& old(k).applets@[p].init != applets::INIT_EL0_EMPTY
                &&& forall|i: int| 0 <= i <= p ==> (#[trigger] final(k).applets@[i]).ready
                &&& res.state.elr == old(k).applets@[p].init + old(k).load_offset
                &&& res.state.spsr == 0
                &&& final(k).cpu.ttbr1_el1 == res.ttbr
            })
        },
        func != 0 && old(k).spd == SpdKind::Optee ==> r == Control::Completion(
            optee::CALL_DONE,
            ret,
            0u64,
            0u64,
        ) && *final(k) == *old(k),
        func != 0 && old(k).spd == SpdKind::Tsp ==> r is Halt,
{
    if func == 0 {
        crate::log::info(&mut k.console, "Back in smc_return");
        proof {
            keep_wf_console(old(k), k);
            assert(k.applets@ == old(k).applets@);
            assert(k.load_offset == old(k).load_offset);
        }
        let ghost k_logged = *k;
        let step = applets::init(k);
        proof {
            assert(first_pending(k_logged.applets@, 0) == first_pending(old(k).applets@, 0));
        }
        match step {
            BootStep::Enter(res) => {
                return Control::Entered(res);
            },
            BootStep::Fault => {
                return Control::Halt;
            },
            BootStep::Done => {
                crate::mmu::switch_ttbr1(&mut k.cpu, 0);
                proof {
                    assert(k.wf()) by {
                        assert(k.mmu.has_root(k.cpu.ttbr0_el1));
                    };
                }
                return Control::ReturnEl3;
            },
        }
    }
    match k.spd {
        SpdKind::Optee => {
            let out = optee::smc_return(func, ret);
            Control::Completion(out.0, out.1, out.2, out.3)
        },
        SpdKind::Tsp => {
            tsp::smc_return(func, ret);
            Control::Halt
        },
    }
}

/// Power-lifecycle entry points, each completing with the code of the
/// convention this build talks.
pub fn smc_cpu_off(spd: SpdKind, args: &mut [u64; 8])
    ensures
        final(args)[0] == (if spd == SpdKind::Tsp { tsp::OFF_DONE } else { optee::OFF_DONE }),
{
    match spd {
        SpdKind::Tsp => tsp::cpu_off(args),
        SpdKind::Optee => optee::cpu_off(args),
    }
}

pub fn smc_cpu_suspend(spd: SpdKind, args: &mut [u64; 8])
    ensures
        final(args)[0] == (if spd == SpdKind::Tsp {
            tsp::SUSPEND_DONE
        } else {
            optee::SUSPEND_DONE
        }),
{
    match spd {
        SpdKind::Tsp => tsp::cpu_suspend(args),
        SpdKind::Optee => optee::cpu_suspend(args),
    }
}

pub fn smc_cpu_resume(spd: SpdKind, args: &mut [u64; 8])
    ensures
        final(args)[0] == (if spd == SpdKind::Tsp { tsp::RESUME_DONE } else { optee::RESUME_DONE }),
{
    match spd {
        SpdKind::Tsp => tsp::cpu_resume(args),
        SpdKind::Optee => optee::cpu_resume(args),
    }
}

pub fn smc_system_off(spd: SpdKind, args: &mut [u64; 8])
    ensures
        final(args)[0] == (if spd == SpdKind::Tsp {
            tsp::SYSTEM_OFF_DONE
        } else {
            optee::SYSTEM_OFF_DONE
        }),
{
    match spd {
        SpdKind::Tsp => tsp::system_off(args),
        SpdKind::Optee => optee::system_off(args),
    }
}

pub fn smc_system_reset(spd: SpdKind, args: &mut [u64; 8])
    ensures
        final(args)[0] == (if spd == SpdKind::Tsp {
            tsp::SYSTEM_RESET_DONE
        } else {
            optee::SYSTEM_RESET_DONE
        }),
{
    match spd {
        SpdKind::Tsp => tsp::system_reset(args),
        SpdKind::Optee => optee::system_reset(args),
    }
}

pub fn smc_cpu_on(spd: SpdKind, args: &mut [u64; 8])
    ensures
        final(args)[0] == (if spd == SpdKind::Tsp { tsp::ON_DONE } else { optee::ON_DONE }),
{
    match spd {
        SpdKind::Tsp => tsp::cpu_on(args),
        SpdKind::Optee => optee::cpu_on(args),
    }
}

pub fn smc_fiq_entry(spd: SpdKind, args: &mut [u64; 8])
    ensures
        spd == SpdKind::Optee ==> final(args)[0] == optee::FIQ_DONE,
        spd == SpdKind::Tsp ==> final(args)@ == old(args)@,
{
    match spd {
        SpdKind::Tsp => {
        },
        SpdKind::Optee => optee::fiq_entry(args),
    }
}

} // verus!
