//! Page-table mapping, translation, the non-secure copy and the mmap
//! guard around the reserved staging window.

use bl32::pmm::Pmm;
use bl32::memory::{Ram, NsRam};
use bl32::cpu::Cpu;
use bl32::mmu::{self, Mmu, ImageMap, MemoryRegion, EL0_RW, START_LINEAR_REGION,
    VA_RESERVED_START};
use bl32::kernel::{Kernel, SpdKind};
use bl32::serial::Console;
use bl32::applets::Applet;

const RAMADDR: u64 = 0x10000;
const RAMSIZE: u64 = 32768 * 8;
const IMGEND: u64 = RAMADDR + 4096;

fn image_map() -> ImageMap {
    ImageMap {
        text: MemoryRegion { start: RAMADDR, stop: RAMADDR + 100 },
        rodata: MemoryRegion { start: RAMADDR + 101, stop: RAMADDR + 200 },
        data: MemoryRegion { start: RAMADDR + 201, stop: IMGEND - 1 },
    }
}

fn boot() -> (Mmu, Pmm, Ram, Cpu) {
    let mut pmm = Pmm::init(RAMADDR, RAMSIZE, RAMADDR, IMGEND);
    let mut ram = Ram::new(RAMADDR, RAMSIZE);
    let mut mmu = Mmu { spaces: Vec::new(), linear: 0, ttbr: 0, phys_start: 0, phys_stop: 0 };
    let mut cpu = Cpu { ttbr0_el1: 0, ttbr1_el1: 0, tcr_el1: 0, sctlr_el1: 0, mpidr_el1: 0 };
    let map = image_map();
    let lin = mmu::init(&mut mmu, &mut pmm, &mut ram, &mut cpu, &map, RAMADDR, IMGEND, RAMADDR,
        RAMSIZE);
    assert_eq!(lin, START_LINEAR_REGION);
    assert_eq!(cpu.ttbr0_el1, mmu.ttbr);
    (mmu, pmm, ram, cpu)
}

#[test]
fn boot_linear_alias_translates() {
    let (mmu, pmm, _ram, _cpu) = boot();
    // every physical page has its fixed-offset alias
    for k in [0u64, 1, 63] {
        let pa = RAMADDR + k * 4096;
        let got = mmu::vaddr_to_paddr(&mmu, &pmm, mmu.ttbr, START_LINEAR_REGION + pa);
        assert_eq!(got, pa);
    }
    // the image is identity-mapped
    let got = mmu::vaddr_to_paddr(&mmu, &pmm, mmu.ttbr, RAMADDR);
    assert_eq!(got, RAMADDR);
}

#[test]
fn map_translate_unmap() {
    let (mut mmu, mut pmm, mut ram, _cpu) = boot();
    let root = mmu::alloc_pgd(&mut mmu, &mut pmm, &mut ram);
    assert_ne!(root, u64::MAX);
    let va = 0xFFFF_FF90_1234_5000u64;
    assert_eq!(mmu::vaddr_to_paddr(&mmu, &pmm, root, va), u64::MAX);
    let r = mmu::alloc_page(&mut mmu, &mut pmm, &mut ram, root, va, EL0_RW);
    assert_eq!(r, 0);
    // mapping then translating gives the page's base
    let pa = mmu::vaddr_to_paddr(&mmu, &pmm, root, va);
    assert_ne!(pa, u64::MAX);
    assert_eq!(pa % 4096, 0);
    assert_eq!(mmu::vaddr_to_paddr(&mmu, &pmm, root, va + 12), pa);
    // after unmapping, the same translation fails
    mmu::unmap_pages(&mut mmu, &mut pmm, root, va, 1);
    assert_eq!(mmu::vaddr_to_paddr(&mmu, &pmm, root, va), u64::MAX);
}

#[test]
fn alloc_pages_rejects_taken_range() {
    let (mut mmu, mut pmm, mut ram, _cpu) = boot();
    let root = mmu::alloc_pgd(&mut mmu, &mut pmm, &mut ram);
    let va = 0xFFFF_FF90_0000_0000u64;
    assert_eq!(mmu::alloc_pages(&mut mmu, &mut pmm, &mut ram, root, va, 2, EL0_RW), 0);
    // allocating into an already-mapped range fails loudly
    assert_eq!(mmu::alloc_pages(&mut mmu, &mut pmm, &mut ram, root, va + 4096, 2, EL0_RW),
        i32::MIN);
    assert_eq!(mmu::pages_available(&mmu, &pmm, root, va, 3), 0);
    assert_eq!(mmu::pages_available(&mmu, &pmm, root, va + 2 * 4096, 3), 3);
}

fn ns_window() -> NsRam {
    let mut bytes = Vec::new();
    for i in 0..8192u64 {
        bytes.push((i % 251) as u8);
    }
    NsRam { start: 0x4000_0000, bytes }
}

fn read_dest(mmu: &Mmu, pmm: &Pmm, ram: &Ram, root: u64, va: u64, len: u64) -> Vec<u8> {
    let mut out = Vec::new();
    for i in 0..len {
        let page = mmu::vaddr_to_paddr(mmu, pmm, root, va + i);
        out.push(ram.read_u8(page + ((va + i) % 4096)));
    }
    out
}

#[test]
fn copy_spanning_two_pages_matches_two_copies() {
    let ns = ns_window();
    // one copy of 100 bytes straddling a page boundary
    let (mut mmu1, mut pmm1, mut ram1, cpu1) = boot();
    let root1 = mmu::alloc_pgd(&mut mmu1, &mut pmm1, &mut ram1);
    let va = 0xFFFF_FF90_0000_0FC0u64;
    let src = 0x4000_0100u64;
    let rc = mmu::memcpy_ns(&mut mmu1, &mut pmm1, &mut ram1, &cpu1, &ns, root1, va, src, 100,
        true);
    assert_eq!(rc, 0);
    let one = read_dest(&mmu1, &pmm1, &ram1, root1, va, 100);

    // the same bytes as two in-bounds copies split at the boundary
    let (mut mmu2, mut pmm2, mut ram2, cpu2) = boot();
    let root2 = mmu::alloc_pgd(&mut mmu2, &mut pmm2, &mut ram2);
    let cut = 0x40u64;
    assert_eq!(mmu::memcpy_ns(&mut mmu2, &mut pmm2, &mut ram2, &cpu2, &ns, root2, va, src, cut,
        true), 0);
    assert_eq!(mmu::memcpy_ns(&mut mmu2, &mut pmm2, &mut ram2, &cpu2, &ns, root2, va + cut,
        src + cut, 100 - cut, true), 0);
    let two = read_dest(&mmu2, &pmm2, &ram2, root2, va, 100);

    assert_eq!(one, two);
    for i in 0..100u64 {
        assert_eq!(one[i as usize], ns.bytes[(src - 0x4000_0000 + i) as usize]);
    }
}

fn kernel_with_session() -> Kernel {
    let (mmu, pmm, ram, cpu) = boot();
    let mut k = Kernel {
        pmm,
        mmu,
        ram,
        cpu,
        applets: vec![Applet { ttbr: u64::MAX, stack: u64::MAX, init: 0, smc: 0x2000, ready: false }],
        console: Console::new(),
        spd: SpdKind::Optee,
        load_offset: 0,
        stored_ptr: 0,
    };
    assert_eq!(bl32::applets::init_session(&mut k, 0), 0);
    let root = k.applets[0].ttbr;
    k.cpu.ttbr1_el1 = root;
    k
}

#[test]
fn mmap_overlapping_reserved_window_rejected() {
    let mut k = kernel_with_session();
    let root = k.cpu.ttbr1_el1;
    let spaces_before = k.mmu.spaces.len();
    // an upper-half address whose low bits land in the staging window
    let bad = 0xFFFF_FF82_0000_0000u64;
    let r = bl32::syscall::mmap(&mut k, bad, 8192, 0);
    assert_eq!(r, u64::MAX);
    // the page table gained nothing
    assert_eq!(k.mmu.spaces.len(), spaces_before);
    assert_eq!(mmu::vaddr_to_paddr(&k.mmu, &k.pmm, root, bad), u64::MAX);
    // and a request crossing into the window from below is rejected too
    let edge = 0xFFFF_FF81_FFFF_F000u64;
    assert_eq!(bl32::syscall::mmap(&mut k, edge, 8192, 0), u64::MAX);
    assert_eq!(mmu::vaddr_to_paddr(&k.mmu, &k.pmm, root, edge), u64::MAX);
}

#[test]
fn mmap_and_munmap_round_trip() {
    let mut k = kernel_with_session();
    let root = k.cpu.ttbr1_el1;
    let addr = 0xFFFF_FF90_0000_0000u64;
    let r = bl32::syscall::mmap(&mut k, addr + 5, 5000, 0);
    assert_eq!(r, addr);
    assert_ne!(mmu::vaddr_to_paddr(&k.mmu, &k.pmm, root, addr), u64::MAX);
    assert_ne!(mmu::vaddr_to_paddr(&k.mmu, &k.pmm, root, addr + 4096), u64::MAX);
    assert_eq!(bl32::syscall::munmap(&mut k, addr, 8192), 0);
    assert_eq!(mmu::vaddr_to_paddr(&k.mmu, &k.pmm, root, addr), u64::MAX);
    // misaligned addresses are the caller's bug
    assert_eq!(bl32::syscall::munmap(&mut k, addr + 5, 4096), u64::MAX);
}

#[test]
fn mmap_rejects_lower_half() {
    let mut k = kernel_with_session();
    assert_eq!(bl32::syscall::mmap(&mut k, 0x1000_0000, 4096, 0), u64::MAX);
}

#[test]
fn remap_frees_previous_page() {
    let (mut mmu, mut pmm, mut ram, _cpu) = boot();
    let root = mmu::alloc_pgd(&mut mmu, &mut pmm, &mut ram);
    let va = 0xFFFF_FF90_0000_2000u64;
    assert_eq!(mmu::alloc_page(&mut mmu, &mut pmm, &mut ram, root, va, EL0_RW), 0);
    let p1 = mmu::vaddr_to_paddr(&mmu, &pmm, root, va);
    assert_ne!(p1, u64::MAX);
    // mapping the same slot again backs it with a fresh page and
    // releases the old one, which the first-fit allocator then hands
    // straight back
    assert_eq!(mmu::alloc_page(&mut mmu, &mut pmm, &mut ram, root, va, EL0_RW), 0);
    let p2 = mmu::vaddr_to_paddr(&mmu, &pmm, root, va);
    assert_ne!(p2, p1);
    assert_eq!(pmm.alloc_page(), p1);
}

#[test]
fn staging_window_torn_down() {
    let ns = ns_window();
    let (mut mmu, mut pmm, mut ram, cpu) = boot();
    let root = mmu::alloc_pgd(&mut mmu, &mut pmm, &mut ram);
    let va = 0xFFFF_FF90_0000_0000u64;
    assert_eq!(mmu::memcpy_ns(&mut mmu, &mut pmm, &mut ram, &cpu, &ns, root, va, 0x4000_0100, 64,
        true), 0);
    // the non-secure source's staging alias is gone afterwards
    assert_eq!(mmu::vaddr_to_paddr(&mmu, &pmm, cpu.ttbr0_el1, bl32::mmu::START_TEMP_REGION),
        u64::MAX);
}

#[test]
fn boot_stack_is_backed() {
    let (mut mmu, mut pmm, mut ram, cpu) = boot();
    let top = bl32::kernel::get_new_stack(&mut mmu, &mut pmm, &mut ram, &cpu);
    assert_ne!(top, u64::MAX);
    assert_eq!(top % 4096, 0);
    assert_ne!(mmu::vaddr_to_paddr(&mmu, &pmm, cpu.ttbr0_el1, top - 4096), u64::MAX);
    // a second core's search lands on a different page
    let top2 = bl32::kernel::get_new_stack(&mut mmu, &mut pmm, &mut ram, &cpu);
    assert_ne!(top2, top);
}

#[test]
fn reserved_window_constants() {
    assert_eq!(VA_RESERVED_START, 8 * 1024 * 1024 * 1024);
    assert_eq!(bl32::mmu::VA_RESERVED_STOP, 9 * 1024 * 1024 * 1024);
}
