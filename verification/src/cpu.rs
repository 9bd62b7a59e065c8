//! The processor state the monitor manipulates: the system registers
//! that select translation tables, configure translation, and identify
//! the core.

use vstd::prelude::*;

verus! {

/// System registers as explicit state.
pub struct Cpu {
    pub ttbr0_el1: u64,
    pub ttbr1_el1: u64,
    pub tcr_el1: u64,
    pub sctlr_el1: u64,
    pub mpidr_el1: u64,
}

impl Cpu {
    pub fn read_ttbr0_el1(&self) -> (r: u64)
        ensures
            r == self.ttbr0_el1,
    {
        self.ttbr0_el1
    }

    pub fn read_ttbr1_el1(&self) -> (r: u64)
        ensures
            r == self.ttbr1_el1,
    {
        self.ttbr1_el1
    }

    pub fn write_ttbr0_el1(&mut self, v: u64)
        ensures
            *final(self) == (Cpu { ttbr0_el1: v, ..*old(self) }),
    {
        self.ttbr0_el1 = v;
    }

    pub fn write_ttbr1_el1(&mut self, v: u64)
        ensures
            *final(self) == (Cpu { ttbr1_el1: v, ..*old(self) }),
    {
        self.ttbr1_el1 = v;
    }

    pub fn write_tcr_el1(&mut self, v: u64)
        ensures
            *final(self) == (Cpu { tcr_el1: v, ..*old(self) }),
    {
        self.tcr_el1 = v;
    }

    pub fn read_sctlr_el1(&self) -> (r: u64)
        ensures
            r == self.sctlr_el1,
    {
        self.sctlr_el1
    }

    pub fn write_sctlr_el1(&mut self, v: u64)
        ensures
            *final(self) == (Cpu { sctlr_el1: v, ..*old(self) }),
    {
        self.sctlr_el1 = v;
    }
}

/// This core's identifier: the low affinity field of its MPIDR.
pub fn id(cpu: &Cpu) -> (r: u32)
    ensures
        r == (cpu.mpidr_el1 & 0xff) as u32,
{
    let m = cpu.mpidr_el1;
    proof {
        assert(m & 0xff < 0x100) by (bit_vector);
    }
    (m & 0xff) as u32
}

} // verus!
