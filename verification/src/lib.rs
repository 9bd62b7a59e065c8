//! Secure-world monitor core: the physical page allocator, three-level
//! page tables, the applet lifecycle, and SMC/exception routing, all
//! over explicit machine state so that every rule the firmware relies
//! on can be stated and proved.

pub mod applets;
pub mod bitmap;
pub mod bits;
pub mod cpu;
pub mod dtb;
pub mod interrupt;
pub mod kernel;
pub mod log;
pub mod math;
pub mod memory;
pub mod mmu;
pub mod optee;
pub mod pmm;
pub mod serial;
pub mod smc;
pub mod svc;
pub mod syscall;
pub mod tsp;
