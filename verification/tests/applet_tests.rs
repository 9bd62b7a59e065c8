//! Applet lifecycle: lazy sessions, ordered boot initialization,
//! dispatch with staging, re-entry, and the dispatcher conventions.

use bl32::pmm::Pmm;
use bl32::memory::{Ram, NsRam};
use bl32::cpu::Cpu;
use bl32::mmu::{self, Mmu, ImageMap, MemoryRegion, START_LINEAR_REGION, VA_RESERVED_START};
use bl32::kernel::{Kernel, SpdKind};
use bl32::serial::Console;
use bl32::applets::{self, Applet, BootStep, INIT_EL0_EMPTY};
use bl32::smc::{self, Control};
use bl32::svc;
use bl32::tsp;
use bl32::optee;
use bl32::interrupt::InterruptState;

const RAMADDR: u64 = 0x10000;
const RAMSIZE: u64 = 32768 * 8;
const IMGEND: u64 = RAMADDR + 4096;

fn boot_kernel(applets: Vec<Applet>) -> Kernel {
    let mut pmm = Pmm::init(RAMADDR, RAMSIZE, RAMADDR, IMGEND);
    let mut ram = Ram::new(RAMADDR, RAMSIZE);
    let mut mmu = Mmu { spaces: Vec::new(), linear: 0, ttbr: 0, phys_start: 0, phys_stop: 0 };
    let mut cpu = Cpu { ttbr0_el1: 0, ttbr1_el1: 0, tcr_el1: 0, sctlr_el1: 0, mpidr_el1: 1 };
    let map = ImageMap {
        text: MemoryRegion { start: RAMADDR, stop: RAMADDR + 100 },
        rodata: MemoryRegion { start: RAMADDR + 101, stop: RAMADDR + 200 },
        data: MemoryRegion { start: RAMADDR + 201, stop: IMGEND - 1 },
    };
    let lin = mmu::init(&mut mmu, &mut pmm, &mut ram, &mut cpu, &map, RAMADDR, IMGEND, RAMADDR,
        RAMSIZE);
    assert_eq!(lin, START_LINEAR_REGION);
    Kernel {
        pmm,
        mmu,
        ram,
        cpu,
        applets,
        console: Console::new(),
        spd: SpdKind::Optee,
        load_offset: 0x1000,
        stored_ptr: 0,
    }
}

fn ns_window() -> NsRam {
    let mut bytes = Vec::new();
    for i in 0..8192u64 {
        bytes.push((i % 13) as u8 + 1);
    }
    NsRam { start: 0x4000_0000, bytes }
}

#[test]
fn boot_init_skips_empty_init_but_marks_ready() {
    // one applet whose init entry is the designated no-op
    let mut k = boot_kernel(vec![Applet {
        ttbr: u64::MAX,
        stack: u64::MAX,
        init: INIT_EL0_EMPTY,
        smc: 0x600,
        ready: false,
    }]);
    let step = applets::init(&mut k);
    // zero privilege drops, yet the applet is marked ready
    assert!(matches!(step, BootStep::Done));
    assert!(k.applets[0].ready);
    // no session was built for it either
    assert_eq!(k.applets[0].ttbr, u64::MAX);
}

#[test]
fn boot_init_sequential_ordering() {
    let fresh = |init: u64| Applet {
        ttbr: u64::MAX,
        stack: u64::MAX,
        init,
        smc: 0x600,
        ready: false,
    };
    let mut k = boot_kernel(vec![fresh(0x400), fresh(INIT_EL0_EMPTY), fresh(0x500)]);
    // the first pass drops into applet zero only
    let step = applets::init(&mut k);
    let res0 = match step {
        BootStep::Enter(r) => r,
        _ => panic!("expected a drop"),
    };
    assert_eq!(res0.state.elr, 0x400 + 0x1000);
    assert_eq!(res0.state.spsr, 0);
    assert!(k.applets[0].ready);
    assert!(!k.applets[1].ready);
    assert!(!k.applets[2].ready);
    // applet two's drop happens only after the zero-id re-entry
    let c = smc::smc_return(&mut k, 0, 0);
    let res2 = match c {
        Control::Entered(r) => r,
        _ => panic!("expected the next drop"),
    };
    assert_eq!(res2.state.elr, 0x500 + 0x1000);
    assert!(k.applets[1].ready);
    assert!(k.applets[2].ready);
    // once every applet is ready, re-entry returns to the firmware
    let c2 = smc::smc_return(&mut k, 0, 0);
    assert!(matches!(c2, Control::ReturnEl3));
    assert_eq!(k.cpu.ttbr1_el1, 0);
    // a second boot pass performs zero additional drops
    let again = applets::init(&mut k);
    assert!(matches!(again, BootStep::Done));
}

#[test]
fn dispatch_builds_one_session_and_stages() {
    let mut k = boot_kernel(vec![Applet {
        ttbr: u64::MAX,
        stack: u64::MAX,
        init: INIT_EL0_EMPTY,
        smc: 0x600,
        ready: false,
    }]);
    let ns = ns_window();
    let spaces_before = k.mmu.spaces.len();
    let out = applets::exec_smc(&mut k, &ns, 0, 7, 3, 0x4000_1000, 64);
    assert_eq!(out.0, 0);
    let res = out.1.expect("a drop");
    // exactly one address-space construction (the lazy session)
    assert_eq!(k.mmu.spaces.len(), spaces_before + 1);
    // one stack page at the top of the upper half
    assert_eq!(k.applets[0].stack, 0xFFFF_FFFF_FFFF_F000);
    let root = k.applets[0].ttbr;
    assert_ne!(root, u64::MAX);
    assert_ne!(mmu::vaddr_to_paddr(&k.mmu, &k.pmm, root, 0xFFFF_FFFF_FFFF_E000), u64::MAX);
    // the drop enters the service entry with {7, 3, staged, 64}
    assert_eq!(res.state.elr, 0x600 + 0x1000);
    assert_eq!(res.state.regs[0], 7);
    assert_eq!(res.state.regs[1], 3);
    assert_eq!(res.state.regs[2], VA_RESERVED_START);
    assert_eq!(res.state.regs[3], 64);
    assert_eq!(res.ttbr, root);
    assert_eq!(k.cpu.ttbr1_el1, root);
    // the staged bytes are the caller's buffer
    for i in 0..64u64 {
        let pa = mmu::vaddr_to_paddr(&k.mmu, &k.pmm, root, VA_RESERVED_START + i);
        let b = k.ram.read_u8(pa + ((VA_RESERVED_START + i) % 4096));
        assert_eq!(b, ns.bytes[(0x1000 + i) as usize]);
    }
    // a second dispatch reuses the session
    let out2 = applets::exec_smc(&mut k, &ns, 0, 8, 1, 0, 0);
    assert_eq!(out2.0, 0);
    assert_eq!(k.mmu.spaces.len(), spaces_before + 1);
    // an out-of-range applet index is rejected without a drop
    let out3 = applets::exec_smc(&mut k, &ns, 9, 1, 2, 3, 0);
    assert_eq!(out3.0, -1);
    assert!(out3.1.is_none());
}

#[test]
fn router_ranges() {
    let mut k = boot_kernel(vec![Applet {
        ttbr: u64::MAX,
        stack: u64::MAX,
        init: INIT_EL0_EMPTY,
        smc: 0x600,
        ready: false,
    }]);
    let ns = ns_window();
    // the arithmetic payload
    let mut args = [smc::encode(0x32, tsp::FNID_ADD), 20, 22, 0, 0, 0, 0, 0];
    let c = smc::smc_handler(&mut k, &ns, &mut args);
    assert!(matches!(c, Control::Handled));
    assert_eq!(args[1], 42);
    // an unknown range completes with no effect
    let mut args2 = [smc::encode(9, 1), 5, 5, 0, 0, 0, 0, 0];
    let c2 = smc::smc_handler(&mut k, &ns, &mut args2);
    assert!(matches!(c2, Control::Handled));
    assert_eq!(args2[1], 5);
    // an out-of-range applet index answers with the sentinel
    let mut args3 = [smc::encode(0x2a, 77), 1, 2, 3, 0, 0, 0, 0];
    let c3 = smc::smc_handler(&mut k, &ns, &mut args3);
    assert!(matches!(c3, Control::Handled));
    assert_eq!(args3[1], u64::MAX);
    assert_eq!(args3[2], 0);
    assert_eq!(args3[3], 0);
}

#[test]
fn tsp_arithmetic() {
    let mut con = Console::new();
    let mut args = [0u64, 7, 5, 0, 0, 0, 0, 0];
    let r = tsp::smc_handler(&mut con, tsp::FNID_SUB, &mut args);
    assert!(!r.1);
    assert_eq!(args[1], 2);
    let mut args = [0u64, 7, 5, 9, 0, 0, 0, 0];
    tsp::smc_handler(&mut con, tsp::FNID_MUL, &mut args);
    assert_eq!(args[1], 35);
    assert_eq!(args[3], 0);
    let mut args = [0u64, u64::MAX, 1, 0, 0, 0, 0, 0];
    tsp::smc_handler(&mut con, tsp::FNID_ADD, &mut args);
    assert_eq!(args[1], 0);
    let mut args = [0u64, 42, 7, 0, 0, 0, 0, 0];
    tsp::smc_handler(&mut con, tsp::FNID_DIV, &mut args);
    assert_eq!(args[1], 6);
    // division by zero is fatal, not an answer
    let mut args = [0u64, 42, 0, 0, 0, 0, 0, 0];
    let r = tsp::smc_handler(&mut con, tsp::FNID_DIV, &mut args);
    assert!(r.1);
}

#[test]
fn completion_codes() {
    let mut args = [0u64; 8];
    tsp::cpu_off(&mut args);
    assert_eq!(args[0], 0xf2000002);
    tsp::system_reset(&mut args);
    assert_eq!(args[0], 0xf2000009);
    optee::cpu_on(&mut args);
    assert_eq!(args[0], (1 << 31) | (0x3e << 24) | 0x01);
    optee::fiq_entry(&mut args);
    assert_eq!(args[0], (1 << 31) | (0x3e << 24) | 0x06);
    let done = optee::smc_return(5, 77);
    assert_eq!(done, ((1 << 31) | (0x3e << 24) | 0x05, 77, 0, 0));
}

#[test]
fn service_return_forwards_per_convention() {
    let mut k = boot_kernel(vec![]);
    let c = smc::smc_return(&mut k, 9, 1234);
    match c {
        Control::Completion(code, v, a, b) => {
            assert_eq!(code, optee::CALL_DONE);
            assert_eq!(v, 1234);
            assert_eq!(a, 0);
            assert_eq!(b, 0);
        },
        _ => panic!("expected a completion"),
    }
    k.spd = SpdKind::Tsp;
    let c2 = smc::smc_return(&mut k, 9, 1234);
    assert!(matches!(c2, Control::Halt));
}

#[test]
fn svc_numbers() {
    let mut k = boot_kernel(vec![]);
    let args = [0x1234u64, 0, 0, 0, 0, 0, 0, 0];
    let (v, c) = svc::handle(&mut k, svc::SYSNO_STORE_PTR, args);
    assert_eq!(v, 0);
    assert!(matches!(c, Control::Handled));
    assert_eq!(k.stored_ptr, 0x1234);
    let (v2, _) = svc::handle(&mut k, 99, args);
    assert_eq!(v2, u64::MAX);
}

#[test]
fn exception_classes() {
    let mut k = boot_kernel(vec![]);
    let mut st = InterruptState::default();
    st.exc_type = 7;
    let c = bl32::interrupt::handle_exception(&mut k, &mut st);
    assert!(matches!(c, Control::Halt));
    let mut st2 = InterruptState::default();
    st2.exc_type = 0x21;
    st2.esr = (0b010101u64) << 26;
    st2.regs[8] = svc::SYSNO_STORE_PTR;
    st2.regs[0] = 55;
    let c2 = bl32::interrupt::handle_exception(&mut k, &mut st2);
    assert!(matches!(c2, Control::Handled));
    assert_eq!(k.stored_ptr, 55);
    assert_eq!(st2.regs[0], 0);
}

#[test]
fn console_log_lines() {
    let mut con = Console::new();
    bl32::log::info(&mut con, "hello");
    assert_eq!(con.out, b"I: hello\n");
    bl32::log::bug(&mut con, "x");
    assert_eq!(&con.out[9..], b"BUG: x\n");
    let c = Cpu { ttbr0_el1: 0, ttbr1_el1: 0, tcr_el1: 0, sctlr_el1: 0, mpidr_el1: 0x105 };
    assert_eq!(bl32::cpu::id(&c), 5);
}
