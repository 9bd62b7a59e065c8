//! The applet lifecycle manager: a static registry of unprivileged
//! programs, each lazily given its own address space and stack, entered
//! through one-way privilege drops modelled as explicit resumptions.

use vstd::prelude::*;
use crate::kernel::Kernel;
use crate::interrupt::InterruptState;
use crate::memory::NsRam;
use crate::mmu;
use crate::mmu::{lemma_space_at, PAGE_SIZE, EL0_RW, VA_RESERVED_START};

verus! {

/// The designated "no initialization" entry point.
pub const INIT_EL0_EMPTY: u64 = 0;

/// One registered applet: its session (the sentinel until first use),
/// its stack top, and its two entry points.
#[derive(Clone, Copy)]
pub struct Applet {
    pub ttbr: u64,
    pub stack: u64,
    pub init: u64,
    pub smc: u64,
    pub ready: bool,
}

/// A pending privilege drop: which address space to install and the
/// register frame to enter with. Control only comes back through the
/// monitor re-entry path.
pub struct Resumption {
    pub ttbr: u64,
    pub state: InterruptState,
}

/// What one pass of the boot-time initialization walk produced.
pub enum BootStep {
    Done,
    Enter(Resumption),
    Fault,
}

/// Index of the first applet still needing an initialization drop.
pub open spec fn first_pending(apps: Seq<Applet>, from: int) -> int
    decreases apps.len() - from,
{
    if from < 0 || from >= apps.len() {
        apps.len() as int
    } else if !apps[from].ready && apps[from].init != INIT_EL0_EMPTY {
        from
    } else {
        first_pending(apps, from + 1)
    }
}

/// A registry whose tail is entirely ready has no pending applet.
pub proof fn lemma_all_ready_first_pending(apps: Seq<Applet>, from: int)
    requires
        0 <= from <= apps.len(),
        forall|i: int| from <= i < apps.len() ==> (#[trigger] apps[i]).ready,
    ensures
        first_pending(apps, from) == apps.len(),
    decreases apps.len() - from,
{
    if from < apps.len() {
        lemma_all_ready_first_pending(apps, from + 1);
    }
}

/// Build an applet's session on first use: a dedicated address-space
/// root and one stack page at the top of the upper half.
pub fn init_session(k: &mut Kernel, idx: usize) -> (r: i32)
    requires
        old(k).wf(),
        idx < old(k).applets@.len(),
    ensures
        final(k).wf(),
        final(k).applets@.len() == old(k).applets@.len(),
        forall|j: int| 0 <= j < old(k).applets@.len() && j != idx
            ==> final(k).applets@[j] == old(k).applets@[j],
        final(k).applets@[idx as int].init == old(k).applets@[idx as int].init,
        final(k).applets@[idx as int].smc == old(k).applets@[idx as int].smc,
        final(k).applets@[idx as int].ready == old(k).applets@[idx as int].ready,
        final(k).cpu == old(k).cpu,
        final(k).console == old(k).console,
        final(k).spd == old(k).spd,
        final(k).load_offset == old(k).load_offset,
        crate::pmm::Pmm::same_shape(old(k).pmm, final(k).pmm),
        final(k).ram.start == old(k).ram.start,
        final(k).ram.bytes@.len() == old(k).ram.bytes@.len(),
        forall|j: int| old(k).pmm.allocated(j) ==> final(k).pmm.allocated(j),
        forall|b: int| old(k).ram.start <= b < old(k).ram.end()
            && (b < old(k).pmm.startmem || b >= old(k).pmm.startmem + old(k).pmm.npages() * 4096
            || old(k).pmm.allocated((b - old(k).pmm.startmem) / 4096))
            ==> final(k).ram.byte_at(b) == old(k).ram.byte_at(b),
        old(k).applets@[idx as int].ttbr != u64::MAX ==> r == 0 && *final(k) == *old(k),
        r != 0 ==> final(k).pmm.all_allocated(),
        old(k).applets@[idx as int].ttbr == u64::MAX && r == 0 ==> final(k).mmu.spaces@.len()
            == old(k).mmu.spaces@.len() + 1,
        r == 0 ==> {
            let a = final(k).applets@[idx as int];
            &&& a.ttbr != u64::MAX
            &&& final(k).mmu.has_root(a.ttbr)
            &&& final(k).mmu.space_at(a.ttbr).dynamic
        },
        old(k).applets@[idx as int].ttbr == u64::MAX && r == 0 ==> {
            let a = final(k).applets@[idx as int];
            &&& a.stack == 0xFFFF_FFFF_FFFF_F000u64
            &&& final(k).mmu.mapped(a.ttbr, 0xFFFF_FFFF_FFFF_E000u64)
            &&& !old(k).mmu.has_root(a.ttbr)
            &&& forall|va: u64| vpn_of_page_differs(va) ==> !final(k).mmu.mapped(a.ttbr, va)
        },
{
    if k.applets[idx].ttbr != u64::MAX {
        proof {
            assert(old(k).applets@[idx as int].ttbr != u64::MAX);
            assert(k.mmu.has_root(k.applets@[idx as int].ttbr));
        }
        return 0;
    }
    let pgd = mmu::alloc_pgd(&mut k.mmu, &mut k.pmm, &mut k.ram);
    if pgd == u64::MAX {
        proof {
            restore_wf(old(k), k);
        }
        return -1;
    }
    let stackva = mmu::maxmem_upper() - PAGE_SIZE;
    proof {
        mmu::lemma_prot_clean();
    }
    let ghost mmu_a = k.mmu;
    let ghost pmm_a = k.pmm;
    proof {
        assert(!mmu_a.mapped(pgd, stackva)) by {
            assert(mmu_a.entry_at(pgd, stackva) == 0);
        };
    }
    let rr = mmu::alloc_page(&mut k.mmu, &mut k.pmm, &mut k.ram, pgd, stackva, EL0_RW);
    proof {
        let i0 = mmu_a.space_index(pgd);
        lemma_space_at(mmu_a, pmm_a, old(k).mmu.spaces@.len() as int);
        assert(mmu_a.spaces@[i0].root.addr == pgd);
        assert(k.mmu.has_root(pgd)) by {
            assert(k.mmu.spaces@[i0].root.addr == pgd);
        };
        lemma_space_at(k.mmu, k.pmm, i0);
        assert(k.mmu.space_at(pgd).dynamic);
        restore_wf(old(k), k);
    }
    if rr != 0 {
        return -1;
    }
    let mut a = k.applets[idx];
    a.ttbr = pgd;
    a.stack = stackva + PAGE_SIZE;
    k.applets.set(idx, a);
    proof {
        assert(final(k).wf()) by {
            assert forall|i: int|
                0 <= i < k.applets@.len() && (#[trigger] k.applets@[i]).ttbr != u64::MAX implies
                k.mmu.has_root(k.applets@[i].ttbr) && k.mmu.space_at(
                k.applets@[i].ttbr,
            ).dynamic by {
                if i != idx {
                    assert(k.applets@[i] == old(k).applets@[i]);
                    if old(k).applets@[i].ttbr != u64::MAX {
                        carry_root(old(k).mmu, old(k).pmm, k.mmu, k.pmm, old(k).applets@[i].ttbr);
                    }
                }
            }
            carry_root_kernel(old(k), k);
        };
        assert(k.mmu.mapped(pgd, stackva)) by {
            assert(k.mmu.translate(pgd, stackva) != u64::MAX);
        };
        assert forall|va: u64| vpn_of_page_differs(va) implies !k.mmu.mapped(pgd, va) by {
            if mmu::vpn_of(va) != mmu::vpn_of(0xFFFF_FFFF_FFFF_E000u64) {
                assert(k.mmu.entry_at(pgd, va) == mmu_a.entry_at(pgd, va));
                assert(mmu_a.entry_at(pgd, va) == 0);
            }
        }
    }
    0
}

/// Addresses outside the stack page (by page number).
pub open spec fn vpn_of_page_differs(va: u64) -> bool {
    mmu::vpn_of(va) != mmu::vpn_of(0xFFFF_FFFF_FFFF_E000u64)
}

/// A root present in the old manager is still present after growth.
proof fn carry_root(m0: mmu::Mmu, p0: crate::pmm::Pmm, m1: mmu::Mmu, p1: crate::pmm::Pmm,
    root: u64)
    requires
        m0.inv(p0),
        m1.inv(p1),
        m0.has_root(root),
        m1.spaces@.len() >= m0.spaces@.len(),
        forall|i: int| 0 <= i < m0.spaces@.len()
            ==> (#[trigger] m1.spaces@[i]).root.addr == m0.spaces@[i].root.addr
                && m1.spaces@[i].dynamic == m0.spaces@[i].dynamic,
    ensures
        m1.has_root(root),
        m1.space_at(root).dynamic == m0.space_at(root).dynamic,
{
    let i = m0.space_index(root);
    assert(0 <= i < m0.spaces@.len() && m0.spaces@[i].root.addr == root);
    lemma_space_at(m0, p0, i);
    assert(m1.spaces@[i].root.addr == root);
    assert(m1.has_root(root));
    lemma_space_at(m1, p1, i);
}

/// The boot space's registration survives applet-space operations.
proof fn carry_root_kernel(k0: &Kernel, k1: &Kernel)
    requires
        k0.wf(),
        k1.mmu.inv(k1.pmm),
        k1.cpu.ttbr0_el1 == k0.cpu.ttbr0_el1,
        k1.mmu.spaces@.len() >= k0.mmu.spaces@.len(),
        forall|i: int| 0 <= i < k0.mmu.spaces@.len()
            ==> (#[trigger] k1.mmu.spaces@[i]).root.addr == k0.mmu.spaces@[i].root.addr
                && k1.mmu.spaces@[i].dynamic == k0.mmu.spaces@[i].dynamic,
    ensures
        k1.mmu.has_root(k1.cpu.ttbr0_el1),
        !k1.mmu.space_at(k1.cpu.ttbr0_el1).dynamic,
{
    carry_root(k0.mmu, k0.pmm, k1.mmu, k1.pmm, k0.cpu.ttbr0_el1);
}

/// Re-derive the kernel invariant after operations that only grow the
/// space list and leave the registry alone.
proof fn restore_wf(k0: &Kernel, k1: &Kernel)
    requires
        k0.wf(),
        k1.mmu.inv(k1.pmm),
        k1.ram.wf(),
        k1.pmm.within(k1.ram),
        k1.cpu == k0.cpu,
        k1.applets@ == k0.applets@,
        k1.load_offset == k0.load_offset,
        k1.mmu.spaces@.len() >= k0.mmu.spaces@.len(),
        forall|i: int| 0 <= i < k0.mmu.spaces@.len()
            ==> (#[trigger] k1.mmu.spaces@[i]).root.addr == k0.mmu.spaces@[i].root.addr
                && k1.mmu.spaces@[i].dynamic == k0.mmu.spaces@[i].dynamic,
    ensures
        k1.wf(),
{
    carry_root_kernel(k0, k1);
    assert forall|i: int|
        0 <= i < k1.applets@.len() && (#[trigger] k1.applets@[i]).ttbr != u64::MAX implies
        k1.mmu.has_root(k1.applets@[i].ttbr) && k1.mmu.space_at(k1.applets@[i].ttbr).dynamic by {
        assert(k1.applets@[i] == k0.applets@[i]);
        carry_root(k0.mmu, k0.pmm, k1.mmu, k1.pmm, k0.applets@[i].ttbr);
    }
}


/// Construct the privilege drop into applet `idx`: reset processor
/// state, point the stack at the applet's stack top, install its
/// address space, and hand back the frame to enter with.
pub fn __exec_in_el0(k: &mut Kernel, idx: usize, state: InterruptState) -> (r: Resumption)
    requires
        old(k).wf(),
        idx < old(k).applets@.len(),
        old(k).applets@[idx as int].ttbr != u64::MAX,
    ensures
        final(k).wf(),
        final(k).applets@ == old(k).applets@,
        final(k).mmu == old(k).mmu,
        final(k).pmm == old(k).pmm,
        final(k).ram == old(k).ram,
        final(k).console == old(k).console,
        final(k).spd == old(k).spd,
        final(k).load_offset == old(k).load_offset,
        final(k).stored_ptr == old(k).stored_ptr,
        final(k).cpu.ttbr0_el1 == old(k).cpu.ttbr0_el1,
        final(k).cpu.ttbr1_el1 == r.ttbr,
        r.ttbr == old(k).applets@[idx as int].ttbr,
        r.state.spsr == 0,
        r.state.saved_sp == old(k).applets@[idx as int].stack,
        r.state.elr == state.elr,
        r.state.regs == state.regs,
        r.state.exc_type == state.exc_type,
        r.state.esr == state.esr,
{
    let mut st = state;
    st.spsr = 0;
    st.saved_sp = k.applets[idx].stack;
    let ttbr = k.applets[idx].ttbr;
    crate::mmu::switch_ttbr1(&mut k.cpu, ttbr);
    Resumption { ttbr, state: st }
}

/// The boot-time initialization pass: walk the registry in declaration
/// order, mark each applet ready, and stop at the first one whose
/// initialization entry is real, handing back the drop into it. The
/// re-entry path runs this pass again to advance to the next applet.
pub fn init(k: &mut Kernel) -> (r: BootStep)
    requires
        old(k).wf(),
    ensures
        final(k).wf(),
        final(k).applets@.len() == old(k).applets@.len(),
        forall|i: int| 0 <= i < old(k).applets@.len()
            ==> (#[trigger] final(k).applets@[i]).init == old(k).applets@[i].init
                && final(k).applets@[i].smc == old(k).applets@[i].smc,
        (forall|i: int| 0 <= i < old(k).applets@.len()
            ==> (#[trigger] old(k).applets@[i]).ready) ==> r is Done && *final(k) == *old(k),
        r is Done ==> {
            &&& first_pending(old(k).applets@, 0) == old(k).applets@.len()
            &&& forall|i: int| 0 <= i < final(k).applets@.len()
                ==> (#[trigger] final(k).applets@[i]).ready
        },
        r is Fault ==> first_pending(old(k).applets@, 0) < old(k).applets@.len()
            && final(k).pmm.all_allocated(),
        r matches BootStep::Enter(res) ==> {
            let p = first_pending(old(k).applets@, 0);
            &&& 0 <= p < old(k).applets@.len()
            &&& !old(k).applets@[p].ready
            &&& old(k).applets@[p].init != INIT_EL0_EMPTY
            &&& forall|i: int| 0 <= i <= p ==> (#[trigger] final(k).applets@[i]).ready
            &&& forall|i: int| p < i < old(k).applets@.len()
                ==> final(k).applets@[i] == old(k).applets@[i]
            &&& res.ttbr == final(k).applets@[p].ttbr
            &&& res.ttbr != u64::MAX
            &&& res.state.elr == old(k).applets@[p].init + old(k).load_offset
            &&& res.state.spsr == 0
            &&& res.state.saved_sp == final(k).applets@[p].stack
            &&& final(k).cpu.ttbr1_el1 == res.ttbr
        },
{
    let n = k.applets.len();
    let mut i: usize = 0;
    while i < n
        invariant
            i <= n,
            n == k.applets@.len(),
            k.wf(),
            old(k).wf(),
            k.applets@.len() == old(k).applets@.len(),
            k.cpu == old(k).cpu,
            k.load_offset == old(k).load_offset,
            first_pending(old(k).applets@, 0) == first_pending(old(k).applets@, i as int),
            forall|j: int| 0 <= j < i ==> (#[trigger] k.applets@[j]).ready,
            forall|j: int| 0 <= j < i ==> (#[trigger] k.applets@[j]).init == old(
                k,
            ).applets@[j].init && k.applets@[j].smc == old(k).applets@[j].smc,
            forall|j: int| i <= j < n ==> k.applets@[j] == old(k).applets@[j],
            (forall|j: int| 0 <= j < n ==> (#[trigger] old(k).applets@[j]).ready)
                ==> *k == *old(k),
        decreases n - i,
    {
        let a = k.applets[i];
        if !a.ready {
            let mut upd = a;
            upd.ready = true;
            k.applets.set(i, upd);
            proof {
                assert(k.wf()) by {
                    assert forall|j: int|
                        0 <= j < k.applets@.len() && (#[trigger] k.applets@[j]).ttbr
                            != u64::MAX implies k.mmu.has_root(k.applets@[j].ttbr)
                        && k.mmu.space_at(k.applets@[j].ttbr).dynamic by {
                        if j != i {
                        } else {
                            assert(k.applets@[j].ttbr == a.ttbr);
                        }
                    }
                };
            }
            if a.init != INIT_EL0_EMPTY {
                proof {
                    assert(first_pending(old(k).applets@, i as int) == i as int);
                }
                let ghost k_marked = *k;
                let rs = init_session(k, i);
                if rs != 0 {
                    proof {
                        assert(first_pending(old(k).applets@, i as int) == i as int);
                    }
                    return BootStep::Fault;
                }
                let ghost k_sess = *k;
                let mut state = InterruptState::default();
                state.elr = a.init + k.load_offset;
                let res = __exec_in_el0(k, i, state);
                proof {
                    let p = first_pending(old(k).applets@, 0);
                    assert(p == i as int);
                    assert(!old(k).applets@[p].ready);
                    assert(old(k).applets@[p].init != INIT_EL0_EMPTY);
                    assert(k.applets@ == k_sess.applets@);
                    assert forall|j: int| 0 <= j <= p implies (
                    #[trigger] k.applets@[j]).ready by {
                        if j < p {
                            assert(k_marked.applets@[j].ready);
                            assert(k_sess.applets@[j] == k_marked.applets@[j]);
                        } else {
                            assert(k_sess.applets@[j].ready == k_marked.applets@[j].ready);
                        }
                    }
                    assert forall|j: int| p < j < old(k).applets@.len() implies
                        k.applets@[j] == old(k).applets@[j] by {
                        assert(k_marked.applets@[j] == old(k).applets@[j]);
                        assert(k_sess.applets@[j] == k_marked.applets@[j]);
                    }
                    assert(res.ttbr == k.applets@[p].ttbr);
                    assert(res.state.elr == old(k).applets@[p].init + old(k).load_offset);
                    assert(res.state.saved_sp == k.applets@[p].stack);
                }
                return BootStep::Enter(res);
            }
            proof {
                assert(first_pending(old(k).applets@, i as int) == first_pending(
                    old(k).applets@,
                    i as int + 1,
                ));
            }
        } else {
            proof {
                assert(first_pending(old(k).applets@, i as int) == first_pending(
                    old(k).applets@,
                    i as int + 1,
                ));
            }
        }
        i = i + 1;
    }
    BootStep::Done
}

/// Register one opaque value on behalf of the running applet.
pub fn store_ptr(k: &mut Kernel, val: u64) -> (r: u64)
    requires
        old(k).wf(),
    ensures
        final(k).wf(),
        r == 0,
        final(k).stored_ptr == val,
        *final(k) == (Kernel { stored_ptr: val, ..*old(k) }),
{
    k.stored_ptr = val;
    0
}


/// The bounds the staging copy relies on: a real, in-window source
/// buffer of sane size. A request outside them is answered with the
/// error sentinel.
pub open spec fn stage_ok(ns: NsRam, arg: u64, len: u64) -> bool {
    &&& arg != u64::MAX
    &&& arg >= 4096
    &&& len < 0x4000_0000
    &&& arg <= u64::MAX - len
    &&& arg + len < 0x80_0000_0000
    &&& ns.in_range(arg, len)
}

/// Dispatch one service call to applet `idx`: build its session if
/// this is the first use, stage the caller's buffer into the reserved
/// window when one is supplied, and construct the privilege drop into
/// the service entry with registers {function, command, argument,
/// length}.
pub fn exec_smc(k: &mut Kernel, ns: &NsRam, idx: usize, fnid: u64, cmd: u64, arg: u64, len: u64)
    -> (r: (i32, Option<Resumption>))
    requires
        old(k).wf(),
        ns.wf(),
    ensures
        final(k).wf(),
        final(k).applets@.len() == old(k).applets@.len(),
        idx >= old(k).applets@.len() ==> r.0 == -1 && r.1 is None && *final(k) == *old(k),
        r.0 == 0 ==> r.1 is Some,
        r.0 != 0 ==> r.1 is None,
        r.0 == 0 ==> {
            let res = r.1->Some_0;
            &&& res.ttbr == final(k).applets@[idx as int].ttbr
            &&& res.ttbr != u64::MAX
            &&& res.state.elr == old(k).applets@[idx as int].smc + old(k).load_offset
            &&& res.state.spsr == 0
            &&& res.state.saved_sp == final(k).applets@[idx as int].stack
            &&& res.state.regs[0] == fnid
            &&& res.state.regs[1] == cmd
            &&& res.state.regs[2] == (if len > 0 { VA_RESERVED_START } else { arg })
            &&& res.state.regs[3] == len
            &&& final(k).cpu.ttbr1_el1 == res.ttbr
        },
        r.0 != 0 ==> idx >= old(k).applets@.len() || (len > 0 && !stage_ok(*ns, arg, len))
            || final(k).pmm.all_allocated(),
        old(k).applets@[idx as int].ttbr == u64::MAX && idx < old(k).applets@.len() && r.0 == 0
            ==> final(k).applets@[idx as int].stack == 0xFFFF_FFFF_FFFF_F000u64
                && final(k).mmu.spaces@.len() == old(k).mmu.spaces@.len() + 1,
        r.0 == 0 && len > 0 ==> mmu::copy_post(
            final(k).mmu.space_at(final(k).applets@[idx as int].ttbr),
            old(k).pmm,
            old(k).ram,
            final(k).ram,
            *ns,
            VA_RESERVED_START,
            arg,
            len,
        ),
        forall|j: int| 0 <= j < old(k).applets@.len() && j != idx
            ==> final(k).applets@[j] == old(k).applets@[j],
{
    let n = k.applets.len();
    if idx >= n {
        return (-1, None);
    }
    let rs = init_session(k, idx);
    if rs != 0 {
        return (-1, None);
    }
    let ghost k_sess = *k;
    let app = k.applets[idx];
    let mut arg2 = arg;
    if len > 0 {
        // bounds the staging copy relies on; a caller outside them is
        // answered with the error sentinel
        if !(arg != u64::MAX && arg >= 4096 && len < 0x4000_0000 && arg <= u64::MAX - len && arg
            + len < 0x80_0000_0000) {
            return (-1, None);
        }
        let nslen = ns.bytes.len() as u64;
        if !(arg >= ns.start && arg - ns.start <= nslen && len <= nslen - (arg - ns.start)) {
            return (-1, None);
        }
        proof {
            assert(VA_RESERVED_START + len <= u64::MAX);
        }
        let rc = mmu::memcpy_ns(&mut k.mmu, &mut k.pmm, &mut k.ram, &k.cpu, ns, app.ttbr,
            VA_RESERVED_START, arg, len, true);
        proof {
            restore_wf(&k_sess, k);
        }
        if rc != 0 {
            return (-1, None);
        }
        arg2 = VA_RESERVED_START;
    }
    let ghost k_copied = *k;
    let mut state = InterruptState::default();
    state.elr = app.smc + k.load_offset;
    let mut regs = [0u64; 31];
    regs[0] = fnid;
    regs[1] = cmd;
    regs[2] = arg2;
    regs[3] = len;
    state.regs = regs;
    let res = __exec_in_el0(k, idx, state);
    proof {
        if len > 0 {
            assert(k.mmu == k_copied.mmu && k.ram == k_copied.ram);
            let root = k.applets@[idx as int].ttbr;
            let sp = k.mmu.space_at(root);
            assert(mmu::copy_post(sp, k_sess.pmm, k_sess.ram, k.ram, *ns, VA_RESERVED_START, arg,
                len));
            assert(mmu::copy_post(
                sp,
                old(k).pmm,
                old(k).ram,
                k.ram,
                *ns,
                VA_RESERVED_START,
                arg,
                len,
            )) by {
                assert forall|b: int| old(k).ram.start <= b < old(k).ram.end() && old(
                    k,
                ).pmm.startmem <= b && b < old(k).pmm.startmem + old(k).pmm.npages() * 4096 && old(
                    k,
                ).pmm.allocated((b - old(k).pmm.startmem) / 4096) && (forall|i: int|
                    0 <= i < len ==> b != #[trigger] sp.resolve(
                        (VA_RESERVED_START + i) as u64,
                    )) implies k.ram.byte_at(b) == old(k).ram.byte_at(b) by {
                    assert(k_sess.ram.byte_at(b) == old(k).ram.byte_at(b));
                    assert(k_sess.pmm.allocated((b - k_sess.pmm.startmem) / 4096));
                    assert(k.ram.byte_at(b) == k_sess.ram.byte_at(b));
                }
            };
        }
    }
    (0, Some(res))
}


/// The applet manager's SMC entry: dispatch the call, and on error
/// answer the normal world with the sentinel in the result registers,
/// keeping the function id intact.
pub fn smc_handler(k: &mut Kernel, ns: &NsRam, func: u64, args: &mut [u64; 8]) -> (r: Option<
    Resumption>)
    requires
        old(k).wf(),
        ns.wf(),
    ensures
        final(k).wf(),
        r is None ==> final(args)[1] == u64::MAX && final(args)[2] == 0 && final(args)[3] == 0
            && final(args)[0] == old(args)[0],
        r is Some ==> final(args)[1] == 0,
        r matches Some(res) ==> res.state.spsr == 0 && (func < old(k).applets@.len()
            ==> res.state.regs[0] == old(args)[0] && res.state.regs[1] == old(args)[1]
                && res.state.regs[3] == old(args)[3]),
        func >= old(k).applets@.len() ==> r is None && *final(k) == *old(k),
        r is None ==> func >= old(k).applets@.len() || (old(args)[3] > 0 && !stage_ok(
            *ns,
            old(args)[2],
            old(args)[3],
        )) || final(k).pmm.all_allocated(),
{
    let a0 = args[0];
    let a1 = args[1];
    let a2 = args[2];
    let a3 = args[3];
    if func > 0xffff {
        args[1] = u64::MAX;
        args[2] = 0;
        args[3] = 0;
        return None;
    }
    let out = exec_smc(k, ns, func as usize, a0, a1, a2, a3);
    match out.1 {
        Some(res) => {
            args[1] = 0;
            Some(res)
        },
        None => {
            args[1] = u64::MAX;
            args[2] = 0;
            args[3] = 0;
            None
        },
    }
}

} // verus!
