//! Virtual memory manager: three-level page tables with a 4 KiB granule
//! over a 39-bit address space. The lower half carries the monitor with
//! its identity-mapped image and a fixed-offset linear alias of all
//! secure RAM; the upper half carries one applet at a time. Tables are
//! modelled as explicit data owned by their address space, with entries
//! holding the same output addresses and attribute bits the hardware
//! would read.

use vstd::prelude::*;
use vstd::arithmetic::div_mod::{lemma_fundamental_div_mod, lemma_fundamental_div_mod_converse};
use crate::pmm::Pmm;
use crate::memory::{Ram, NsRam};
use crate::math::{GB, align_pow2_down, align_pow2_up, lemma_pow2_4096};

verus! {

pub const PAGE_SIZE: u64 = 4096;

pub const VA_BITS: u64 = 39;

/// Output-address field of a descriptor: bits 12..=38.
pub const OA_MASK: u64 = 0x7F_FFFF_F000;

pub const MMU_ENTRY_NEXT_TBL: u64 = 1 | 2;

pub const MMU_ENTRY_NEXT_PAGE: u64 = 1 | 2 | (1 << 10);

pub const AP_RW: u64 = 0 << 7;

pub const AP_RO: u64 = 1 << 7;

pub const AP_EL0: u64 = 1 << 6;

pub const MMU_UXN: u64 = 1 << 54;

pub const MMU_PXN: u64 = 1 << 53;

pub const MMU_NS: u64 = 1 << 5;

pub const EL0_RW: u64 = AP_RW | AP_EL0 | MMU_UXN | MMU_PXN;

pub const EL0_RO: u64 = AP_RO | AP_EL0 | MMU_UXN | MMU_PXN;

pub const EL0_RX: u64 = AP_RO | AP_EL0 | MMU_PXN;

pub const EL1_RW: u64 = AP_RW | MMU_UXN | MMU_PXN;

pub const EL1_RO: u64 = AP_RO | MMU_UXN | MMU_PXN;

pub const EL1_RX: u64 = AP_RO;

/// Start of the fixed-offset linear alias of secure RAM.
pub const START_LINEAR_REGION: u64 = 1 << 31;

/// Staging window through which non-secure source pages are mapped.
pub const START_TEMP_REGION: u64 = 1 << 34;

/// Reserved per-address-space window for buffers copied in from the
/// normal world; never handed out as ordinary applet memory.
pub const VA_RESERVED_START: u64 = GB * 8;

pub const VA_RESERVED_SIZE: u64 = GB;

pub const VA_RESERVED_STOP: u64 = VA_RESERVED_START + VA_RESERVED_SIZE;

/// Attribute bits a caller at the unprivileged level may choose.
pub const PROT_EL0_ALLOWED: u64 = AP_EL0 | MMU_UXN | MMU_PXN | AP_RO | AP_RW;

/// Strip any protection bit outside the safe unprivileged subset.
pub fn mask_prot_el0(prot: u64) -> (r: u64)
    ensures
        r == prot & PROT_EL0_ALLOWED,
        r & !PROT_EL0_ALLOWED == 0,
        r & OA_MASK == 0,
        r & (MMU_ENTRY_NEXT_TBL | MMU_ENTRY_NEXT_PAGE) == 0,
{
    let r = prot & PROT_EL0_ALLOWED;
    proof {
        assert(prot & PROT_EL0_ALLOWED & !PROT_EL0_ALLOWED == 0
            && prot & PROT_EL0_ALLOWED & OA_MASK == 0
            && prot & PROT_EL0_ALLOWED & (MMU_ENTRY_NEXT_TBL | MMU_ENTRY_NEXT_PAGE) == 0)
            by (bit_vector);
    }
    r
}

/// Force "unprivileged only, never privileged-executable" onto `prot`.
pub fn enforce_prot_el0(prot: u64) -> (r: u64)
    ensures
        r == prot | MMU_PXN | AP_EL0,
        r & MMU_PXN != 0,
        r & AP_EL0 != 0,
{
    let r = prot | MMU_PXN | AP_EL0;
    proof {
        assert((prot | MMU_PXN | AP_EL0) & MMU_PXN != 0
            && (prot | MMU_PXN | AP_EL0) & AP_EL0 != 0) by (bit_vector);
    }
    r
}

/// The two bounds together: masking stays inside the unprivileged set,
/// and enforcement always pins execute-never-privileged plus
/// user-accessible, whatever the caller asked for.
pub proof fn lemma_prot_el0_bounds(prot: u64)
    ensures
        (prot & PROT_EL0_ALLOWED) & !(AP_EL0 | MMU_UXN | MMU_PXN | AP_RO | AP_RW) == 0,
        (prot | MMU_PXN | AP_EL0) & MMU_PXN != 0,
        (prot | MMU_PXN | AP_EL0) & AP_EL0 != 0,
{
    assert((prot & PROT_EL0_ALLOWED) & !(AP_EL0 | MMU_UXN | MMU_PXN | AP_RO | AP_RW) == 0
        && (prot | MMU_PXN | AP_EL0) & MMU_PXN != 0
        && (prot | MMU_PXN | AP_EL0) & AP_EL0 != 0) by (bit_vector);
}

/// Whether a virtual address belongs to the upper (applet) half.
pub open spec fn spec_inupper(addr: u64) -> bool {
    addr & 0x8000_0000_0000_0000 != 0
}

pub fn inupper(addr: u64) -> (r: bool)
    ensures
        r == spec_inupper(addr),
{
    proof {
        assert((((addr & (1u64 << 63u64)) >> 63u64) == 1) == (addr & 0x8000_0000_0000_0000u64
            != 0)) by (bit_vector);
    }
    ((addr & (1u64 << 63u64)) >> 63u64) == 1
}

/// Highest page-aligned address of the upper half.
pub fn maxmem_upper() -> (r: u64)
    ensures
        r == 0xFFFF_FFFF_FFFF_F000u64,
{
    proof {
        assert(u64::MAX & !4095u64 == 0xFFFF_FFFF_FFFF_F000u64) by (bit_vector);
    }
    u64::MAX & !4095
}

/// Highest page-aligned address of the lower half.
pub fn maxmem_lower() -> (r: u64)
    ensures
        r == 0x7F_FFFF_F000u64,
{
    proof {
        assert((0x7F_FFFF_FFFFu64) & !4095u64 == 0x7F_FFFF_F000u64) by (bit_vector);
        assert((1u64 << 39) == 0x80_0000_0000u64) by (bit_vector);
    }
    let top = (1u64 << 39) - 1;
    top & !4095
}


/// The standard protections carry no address or descriptor-type bits.
pub proof fn lemma_prot_clean()
    ensures
        EL0_RW & OA_MASK == 0 && EL0_RW & (MMU_ENTRY_NEXT_TBL | MMU_ENTRY_NEXT_PAGE) == 0,
        EL0_RO & OA_MASK == 0 && EL0_RO & (MMU_ENTRY_NEXT_TBL | MMU_ENTRY_NEXT_PAGE) == 0,
        EL0_RX & OA_MASK == 0 && EL0_RX & (MMU_ENTRY_NEXT_TBL | MMU_ENTRY_NEXT_PAGE) == 0,
        EL1_RW & OA_MASK == 0 && EL1_RW & (MMU_ENTRY_NEXT_TBL | MMU_ENTRY_NEXT_PAGE) == 0,
        EL1_RO & OA_MASK == 0 && EL1_RO & (MMU_ENTRY_NEXT_TBL | MMU_ENTRY_NEXT_PAGE) == 0,
        EL1_RX & OA_MASK == 0 && EL1_RX & (MMU_ENTRY_NEXT_TBL | MMU_ENTRY_NEXT_PAGE) == 0,
        (EL1_RO | MMU_NS) & OA_MASK == 0 && (EL1_RO | MMU_NS) & (MMU_ENTRY_NEXT_TBL
            | MMU_ENTRY_NEXT_PAGE) == 0,
{
    assert(EL0_RW & OA_MASK == 0 && EL0_RW & (MMU_ENTRY_NEXT_TBL | MMU_ENTRY_NEXT_PAGE) == 0
        && EL0_RO & OA_MASK == 0 && EL0_RO & (MMU_ENTRY_NEXT_TBL | MMU_ENTRY_NEXT_PAGE) == 0
        && EL0_RX & OA_MASK == 0 && EL0_RX & (MMU_ENTRY_NEXT_TBL | MMU_ENTRY_NEXT_PAGE) == 0
        && EL1_RW & OA_MASK == 0 && EL1_RW & (MMU_ENTRY_NEXT_TBL | MMU_ENTRY_NEXT_PAGE) == 0
        && EL1_RO & OA_MASK == 0 && EL1_RO & (MMU_ENTRY_NEXT_TBL | MMU_ENTRY_NEXT_PAGE) == 0
        && EL1_RX & OA_MASK == 0 && EL1_RX & (MMU_ENTRY_NEXT_TBL | MMU_ENTRY_NEXT_PAGE) == 0
        && (EL1_RO | MMU_NS) & OA_MASK == 0 && (EL1_RO | MMU_NS) & (MMU_ENTRY_NEXT_TBL
        | MMU_ENTRY_NEXT_PAGE) == 0) by (bit_vector);
}

/// Output address of a descriptor.
pub open spec fn oa_of(e: u64) -> u64 {
    e & OA_MASK
}

pub open spec fn l1_of(va: u64) -> int {
    ((va >> 30) & 511) as int
}

pub open spec fn l2_of(va: u64) -> int {
    ((va >> 21) & 511) as int
}

pub open spec fn l3_of(va: u64) -> int {
    ((va >> 12) & 511) as int
}

/// Virtual page number: the three table indices as one value.
pub open spec fn vpn_of(va: u64) -> int {
    ((va >> 12) & 0x7FF_FFFF) as int
}

/// Two addresses resolve through the same table slots exactly when they
/// share a virtual page number.
pub proof fn lemma_vpn_of_indices(va1: u64, va2: u64)
    ensures
        (vpn_of(va1) == vpn_of(va2)) <==> (l1_of(va1) == l1_of(va2) && l2_of(va1) == l2_of(va2)
            && l3_of(va1) == l3_of(va2)),
{
    assert((((va1 >> 12) & 0x7FF_FFFF) == ((va2 >> 12) & 0x7FF_FFFF)) == (((va1 >> 30) & 511) == (
    (va2 >> 30) & 511) && ((va1 >> 21) & 511) == ((va2 >> 21) & 511) && ((va1 >> 12) & 511) == ((
    va2 >> 12) & 511))) by (bit_vector);
}

pub fn extract_l1(va: u64) -> (r: usize)
    ensures
        r == l1_of(va),
        r < 512,
{
    proof {
        assert(((va >> 30) & 511) < 512) by (bit_vector);
    }
    ((va >> 30) & 511) as usize
}

pub fn extract_l2(va: u64) -> (r: usize)
    ensures
        r == l2_of(va),
        r < 512,
{
    proof {
        assert(((va >> 21) & 511) < 512) by (bit_vector);
    }
    ((va >> 21) & 511) as usize
}

pub fn extract_l3(va: u64) -> (r: usize)
    ensures
        r == l3_of(va),
        r < 512,
{
    proof {
        assert(((va >> 12) & 511) < 512) by (bit_vector);
    }
    ((va >> 12) & 511) as usize
}

pub fn extract_oa(e: u64) -> (r: u64)
    ensures
        r == oa_of(e),
{
    e & OA_MASK
}

/// A page-aligned address that fits the descriptor output field.
pub open spec fn oa_clean(a: u64) -> bool {
    a & OA_MASK == a
}

/// Building a leaf descriptor keeps the output address readable.
pub proof fn lemma_leaf_fields(pa: u64, prot: u64)
    requires
        oa_clean(pa),
        prot & OA_MASK == 0,
        prot & (MMU_ENTRY_NEXT_TBL | MMU_ENTRY_NEXT_PAGE) == 0,
    ensures
        oa_of(pa | prot | MMU_ENTRY_NEXT_PAGE) == pa,
        pa | prot | MMU_ENTRY_NEXT_PAGE != 0,
{
    assert((pa | prot | MMU_ENTRY_NEXT_PAGE) & OA_MASK == pa && (pa | prot | MMU_ENTRY_NEXT_PAGE)
        != 0) by (bit_vector)
        requires
            pa & OA_MASK == pa,
            prot & OA_MASK == 0,
            prot & (MMU_ENTRY_NEXT_TBL | MMU_ENTRY_NEXT_PAGE) == 0,
    ;
}

/// Building a table descriptor keeps the table address readable.
pub proof fn lemma_tbl_fields(t: u64)
    requires
        oa_clean(t),
        t != 0,
    ensures
        oa_of(t | MMU_ENTRY_NEXT_TBL) == t,
        t | MMU_ENTRY_NEXT_TBL != 0,
{
    assert((t | MMU_ENTRY_NEXT_TBL) & OA_MASK == t && (t | MMU_ENTRY_NEXT_TBL) != 0)
        by (bit_vector)
        requires
            t & OA_MASK == t,
            t != 0,
    ;
}

/// A page-aligned address below `1 << 39` is a clean output address.
pub proof fn lemma_page_oa_clean(a: u64)
    requires
        a % 4096 == 0,
        a < 0x80_0000_0000,
    ensures
        oa_clean(a),
{
    assert(a & OA_MASK == a) by (bit_vector)
        requires
            a % 4096 == 0 && a < 0x80_0000_0000,
    ;
}


/// One hardware translation table: 512 descriptors at a physical address.
pub struct PageTable {
    pub addr: u64,
    pub entries: Vec<u64>,
}

pub open spec fn tbl_wf(t: PageTable) -> bool {
    &&& t.entries@.len() == 512
    &&& t.addr != 0
    &&& t.addr % 4096 == 0
    &&& t.addr < 0x80_0000_0000
}

/// Whether some table in `ts` sits at physical address `a`.
pub open spec fn tbls_has(ts: Seq<PageTable>, a: u64) -> bool {
    exists|k: int| 0 <= k < ts.len() && (#[trigger] ts[k]).addr == a
}

/// The entries of the table at `a` (meaningful only when unique).
pub open spec fn tbls_at(ts: Seq<PageTable>, a: u64) -> Seq<u64> {
    ts[choose|k: int| 0 <= k < ts.len() && (#[trigger] ts[k]).addr == a].entries@
}

pub open spec fn tbls_distinct(ts: Seq<PageTable>) -> bool {
    forall|i: int, j: int| 0 <= i < j < ts.len() ==> (#[trigger] ts[i]).addr != (#[trigger] ts[j]).addr
}

/// With distinct addresses, the table found at `ts[k].addr` is `ts[k]`.
pub proof fn lemma_tbls_at_k(ts: Seq<PageTable>, k: int)
    requires
        tbls_distinct(ts),
        0 <= k < ts.len(),
    ensures
        tbls_has(ts, ts[k].addr),
        tbls_at(ts, ts[k].addr) == ts[k].entries@,
{
    let a = ts[k].addr;
    assert(tbls_has(ts, a));
    let j = choose|j: int| 0 <= j < ts.len() && (#[trigger] ts[j]).addr == a;
    if j != k {
        if j < k {
            assert(ts[j].addr != ts[k].addr);
        } else {
            assert(ts[k].addr != ts[j].addr);
        }
        assert(false);
    }
}

/// Appending a table at a fresh address leaves every other lookup as it was.
pub proof fn lemma_tbls_push(ts: Seq<PageTable>, t: PageTable)
    requires
        tbls_distinct(ts),
        !tbls_has(ts, t.addr),
    ensures
        tbls_distinct(ts.push(t)),
        tbls_has(ts.push(t), t.addr),
        tbls_at(ts.push(t), t.addr) == t.entries@,
        forall|a: u64| a != t.addr ==> tbls_has(ts.push(t), a) == tbls_has(ts, a),
        forall|a: u64| a != t.addr && tbls_has(ts, a) ==> tbls_at(ts.push(t), a) == tbls_at(ts, a),
{
    let ns = ts.push(t);
    assert(ns[ts.len() as int] == t);
    assert forall|i: int, j: int| 0 <= i < j < ns.len() implies (#[trigger] ns[i]).addr != (
    #[trigger] ns[j]).addr by {
        if j < ts.len() {
            assert(ts[i].addr != ts[j].addr);
        } else {
            assert(ns[j] == t);
            assert(ts[i].addr == ns[i].addr);
            if ns[i].addr == t.addr {
                assert(tbls_has(ts, t.addr));
            }
        }
    }
    lemma_tbls_at_k(ns, ts.len() as int);
    assert forall|a: u64| a != t.addr implies tbls_has(ns, a) == tbls_has(ts, a) by {
        if tbls_has(ts, a) {
            let k = choose|k: int| 0 <= k < ts.len() && (#[trigger] ts[k]).addr == a;
            assert(ns[k].addr == a);
        }
        if tbls_has(ns, a) {
            let k = choose|k: int| 0 <= k < ns.len() && (#[trigger] ns[k]).addr == a;
            assert(k < ts.len());
            assert(ts[k].addr == a);
        }
    }
    assert forall|a: u64| a != t.addr && tbls_has(ts, a) implies tbls_at(ns, a) == tbls_at(
        ts,
        a,
    ) by {
        let k = choose|k: int| 0 <= k < ts.len() && (#[trigger] ts[k]).addr == a;
        lemma_tbls_at_k(ts, k);
        assert(ns[k].addr == a);
        lemma_tbls_at_k(ns, k);
    }
}

/// Replacing table `k` with one at the same address changes only that
/// table's lookup.
pub proof fn lemma_tbls_update(ts: Seq<PageTable>, k: int, t: PageTable)
    requires
        tbls_distinct(ts),
        0 <= k < ts.len(),
        t.addr == ts[k].addr,
    ensures
        tbls_distinct(ts.update(k, t)),
        tbls_has(ts.update(k, t), t.addr),
        tbls_at(ts.update(k, t), t.addr) == t.entries@,
        forall|a: u64| tbls_has(ts.update(k, t), a) == tbls_has(ts, a),
        forall|a: u64| a != t.addr && tbls_has(ts, a) ==> tbls_at(ts.update(k, t), a) == tbls_at(ts, a),
{
    let ns = ts.update(k, t);
    assert(ns[k] == t);
    assert forall|i: int, j: int| 0 <= i < j < ns.len() implies (#[trigger] ns[i]).addr != (
    #[trigger] ns[j]).addr by {
        assert(ts[i].addr != ts[j].addr);
        assert(ns[i].addr == ts[i].addr && ns[j].addr == ts[j].addr);
    }
    lemma_tbls_at_k(ns, k);
    assert forall|a: u64| tbls_has(ns, a) == tbls_has(ts, a) by {
        if tbls_has(ts, a) {
            let i = choose|i: int| 0 <= i < ts.len() && (#[trigger] ts[i]).addr == a;
            assert(ns[i].addr == a);
        }
        if tbls_has(ns, a) {
            let i = choose|i: int| 0 <= i < ns.len() && (#[trigger] ns[i]).addr == a;
            assert(ts[i].addr == a);
        }
    }
    assert forall|a: u64| a != t.addr && tbls_has(ts, a) implies tbls_at(ns, a) == tbls_at(
        ts,
        a,
    ) by {
        let i = choose|i: int| 0 <= i < ts.len() && (#[trigger] ts[i]).addr == a;
        lemma_tbls_at_k(ts, i);
        assert(ns[i].addr == a);
        lemma_tbls_at_k(ns, i);
    }
}

/// One applet's (or the monitor's) address space: an L1 root plus the
/// lazily allocated L2 and L3 tables it points into. `dynamic` marks a
/// space built at run time, whose leaves are pages owned by the PMM;
/// the boot space instead carries the image, linear and staging
/// mappings, whose leaves the PMM does not own as reclaimable.
pub struct AddrSpace {
    pub root: PageTable,
    pub l2s: Vec<PageTable>,
    pub l3s: Vec<PageTable>,
    pub dynamic: bool,
}

impl AddrSpace {
    /// The raw leaf descriptor reached by walking `va`, or 0.
    pub open spec fn entry_at(self, va: u64) -> u64 {
        let e1 = self.root.entries@[l1_of(va)];
        if e1 == 0 {
            0
        } else if !tbls_has(self.l2s@, oa_of(e1)) {
            0
        } else {
            let e2 = tbls_at(self.l2s@, oa_of(e1))[l2_of(va)];
            if e2 == 0 {
                0
            } else if !tbls_has(self.l3s@, oa_of(e2)) {
                0
            } else {
                tbls_at(self.l3s@, oa_of(e2))[l3_of(va)]
            }
        }
    }

    pub open spec fn mapped(self, va: u64) -> bool {
        self.entry_at(va) != 0
    }

    /// Physical translation of `va`: its page's output address, or the
    /// failure sentinel when the walk finds nothing.
    pub open spec fn translate(self, va: u64) -> u64 {
        if self.entry_at(va) != 0 && oa_of(self.entry_at(va)) != 0 {
            oa_of(self.entry_at(va))
        } else {
            u64::MAX
        }
    }

    /// Every non-empty L1 slot points at one of our L2 tables, and every
    /// non-empty L2 slot at one of our L3 tables.
    pub open spec fn links_ok(self) -> bool {
        &&& forall|s: int| 0 <= s < 512 && (#[trigger] self.root.entries@[s]) != 0
            ==> tbls_has(self.l2s@, oa_of(self.root.entries@[s]))
        &&& forall|k: int, s: int| 0 <= k < self.l2s@.len() && 0 <= s < 512
            && (#[trigger] self.l2s@[k].entries@[s]) != 0
            ==> tbls_has(self.l3s@, oa_of(self.l2s@[k].entries@[s]))
    }

    /// Distinct slots never point at the same child table.
    pub open spec fn links_inj(self) -> bool {
        &&& forall|s1: int, s2: int| 0 <= s1 < 512 && 0 <= s2 < 512 && s1 != s2
            && (#[trigger] self.root.entries@[s1]) != 0 && (#[trigger] self.root.entries@[s2]) != 0
            ==> oa_of(self.root.entries@[s1]) != oa_of(self.root.entries@[s2])
        &&& forall|k1: int, s1: int, k2: int, s2: int|
            0 <= k1 < self.l2s@.len() && 0 <= s1 < 512 && 0 <= k2 < self.l2s@.len() && 0 <= s2 < 512
            && (k1 != k2 || s1 != s2)
            && (#[trigger] self.l2s@[k1].entries@[s1]) != 0
            && (#[trigger] self.l2s@[k2].entries@[s2]) != 0
            ==> oa_of(self.l2s@[k1].entries@[s1]) != oa_of(self.l2s@[k2].entries@[s2])
    }

    /// A table of this space sits at physical address `a`.
    pub open spec fn is_table_addr(self, a: u64) -> bool {
        self.root.addr == a || tbls_has(self.l2s@, a) || tbls_has(self.l3s@, a)
    }

    /// A dynamic leaf of this space points at physical page `a`.
    pub open spec fn is_leaf_oa(self, a: u64) -> bool {
        self.dynamic && exists|t: int, s: int|
            0 <= t < self.l3s@.len() && 0 <= s < 512 && (#[trigger] self.l3s@[t].entries@[s]) != 0
                && oa_of(self.l3s@[t].entries@[s]) == a
    }

    /// In a dynamic space every leaf page is a real, distinct page that
    /// no table of the space sits on.
    pub open spec fn leaves_ok(self) -> bool {
        self.dynamic ==> {
            &&& forall|t: int, s: int| 0 <= t < self.l3s@.len() && 0 <= s < 512
                && (#[trigger] self.l3s@[t].entries@[s]) != 0 ==> {
                    let a = oa_of(self.l3s@[t].entries@[s]);
                    a != 0 && a % 4096 == 0 && !self.is_table_addr(a)
                }
            &&& forall|t1: int, s1: int, t2: int, s2: int|
                0 <= t1 < self.l3s@.len() && 0 <= s1 < 512 && 0 <= t2 < self.l3s@.len()
                && 0 <= s2 < 512 && (t1 != t2 || s1 != s2)
                && (#[trigger] self.l3s@[t1].entries@[s1]) != 0
                && (#[trigger] self.l3s@[t2].entries@[s2]) != 0
                ==> oa_of(self.l3s@[t1].entries@[s1]) != oa_of(self.l3s@[t2].entries@[s2])
        }
    }

    pub open spec fn wf(self) -> bool {
        &&& tbl_wf(self.root)
        &&& forall|k: int| 0 <= k < self.l2s@.len() ==> tbl_wf(#[trigger] self.l2s@[k])
        &&& forall|k: int| 0 <= k < self.l3s@.len() ==> tbl_wf(#[trigger] self.l3s@[k])
        &&& tbls_distinct(self.l2s@)
        &&& tbls_distinct(self.l3s@)
        &&& self.links_ok()
        &&& self.links_inj()
        &&& self.leaves_ok()
    }

    /// Some page (a table's, or a dynamic leaf's) belongs to this space.
    pub open spec fn owns_page(self, a: u64) -> bool {
        self.is_table_addr(a) || self.is_leaf_oa(a)
    }

    /// Every page this space owns is a live allocation of the PMM.
    pub open spec fn owned_allocated(self, pmm: Pmm) -> bool {
        forall|a: u64| #[trigger] self.owns_page(a)
            ==> pmm.valid_page_addr(a) && pmm.allocated(pmm.page_index(a))
    }

    /// No page is owned by both spaces.
    pub open spec fn disjoint_from(self, other: AddrSpace) -> bool {
        forall|a: u64| !(#[trigger] self.owns_page(a) && #[trigger] other.owns_page(a))
    }
}

/// A fresh, zero-filled table at address `addr`.
pub fn new_table(addr: u64) -> (r: PageTable)
    requires
        addr != 0,
        addr % 4096 == 0,
        addr < 0x80_0000_0000,
    ensures
        tbl_wf(r),
        r.addr == addr,
        forall|s: int| 0 <= s < 512 ==> r.entries@[s] == 0,
{
    let mut entries: Vec<u64> = Vec::new();
    let mut i: usize = 0;
    while i < 512
        invariant
            i <= 512,
            entries@.len() == i,
            forall|s: int| 0 <= s < i ==> entries@[s] == 0,
        decreases 512 - i,
    {
        entries.push(0);
        i = i + 1;
    }
    PageTable { addr, entries }
}


/// Removing an element and re-inserting a new one at the same place is
/// a pointwise update.
proof fn lemma_seq_update_via_remove<T>(s: Seq<T>, k: int, x: T)
    requires
        0 <= k < s.len(),
    ensures
        s.remove(k).insert(k, x) == s.update(k, x),
{
    let t = s.remove(k).insert(k, x);
    assert(t.len() == s.len());
    assert forall|j: int| 0 <= j < s.len() implies t[j] == s.update(k, x)[j] by {
        if j < k {
        } else if j == k {
        } else {
        }
    }
    assert(t =~= s.update(k, x));
}

impl AddrSpace {
    /// Linear search for the L2 table at physical address `a`.
    fn find_l2(&self, a: u64) -> (r: Option<usize>)
        ensures
            match r {
                Some(k) => k < self.l2s@.len() && self.l2s@[k as int].addr == a,
                None => !tbls_has(self.l2s@, a),
            },
    {
        let n = self.l2s.len();
        let mut k: usize = 0;
        while k < n
            invariant
                k <= n,
                n == self.l2s@.len(),
                forall|j: int| 0 <= j < k ==> (#[trigger] self.l2s@[j]).addr != a,
            decreases n - k,
        {
            if self.l2s[k].addr == a {
                return Some(k);
            }
            k = k + 1;
        }
        None
    }

    /// Linear search for the L3 table at physical address `a`.
    fn find_l3(&self, a: u64) -> (r: Option<usize>)
        ensures
            match r {
                Some(k) => k < self.l3s@.len() && self.l3s@[k as int].addr == a,
                None => !tbls_has(self.l3s@, a),
            },
    {
        let n = self.l3s.len();
        let mut k: usize = 0;
        while k < n
            invariant
                k <= n,
                n == self.l3s@.len(),
                forall|j: int| 0 <= j < k ==> (#[trigger] self.l3s@[j]).addr != a,
            decreases n - k,
        {
            if self.l3s[k].addr == a {
                return Some(k);
            }
            k = k + 1;
        }
        None
    }

    /// Write one descriptor of L2 table `k`.
    fn l2_set_entry(&mut self, k: usize, slot: usize, e: u64)
        requires
            k < old(self).l2s@.len(),
            slot < 512,
            old(self).l2s@[k as int].entries@.len() == 512,
        ensures
            final(self).root == old(self).root,
            final(self).l3s == old(self).l3s,
            final(self).dynamic == old(self).dynamic,
            final(self).l2s@.len() == old(self).l2s@.len(),
            final(self).l2s@[k as int].addr == old(self).l2s@[k as int].addr,
            final(self).l2s@[k as int].entries@ == old(self).l2s@[k as int].entries@.update(
                slot as int,
                e,
            ),
            forall|j: int| 0 <= j < old(self).l2s@.len() && j != k
                ==> final(self).l2s@[j] == old(self).l2s@[j],
    {
        let mut t = self.l2s.remove(k);
        t.entries.set(slot, e);
        self.l2s.insert(k, t);
        proof {
            lemma_seq_update_via_remove(
                old(self).l2s@,
                k as int,
                self.l2s@[k as int],
            );
        }
    }

    /// Write one descriptor of L3 table `k`.
    fn l3_set_entry(&mut self, k: usize, slot: usize, e: u64)
        requires
            k < old(self).l3s@.len(),
            slot < 512,
            old(self).l3s@[k as int].entries@.len() == 512,
        ensures
            final(self).root == old(self).root,
            final(self).l2s == old(self).l2s,
            final(self).dynamic == old(self).dynamic,
            final(self).l3s@.len() == old(self).l3s@.len(),
            final(self).l3s@[k as int].addr == old(self).l3s@[k as int].addr,
            final(self).l3s@[k as int].entries@ == old(self).l3s@[k as int].entries@.update(
                slot as int,
                e,
            ),
            forall|j: int| 0 <= j < old(self).l3s@.len() && j != k
                ==> final(self).l3s@[j] == old(self).l3s@[j],
    {
        let mut t = self.l3s.remove(k);
        t.entries.set(slot, e);
        self.l3s.insert(k, t);
        proof {
            lemma_seq_update_via_remove(
                old(self).l3s@,
                k as int,
                self.l3s@[k as int],
            );
        }
    }
}


impl AddrSpace {
    /// Hang a fresh, empty L2 table at `t2` off root slot `l1i`.
    fn attach_l2(&mut self, t2: u64, l1i: usize)
        requires
            old(self).wf(),
            l1i < 512,
            old(self).root.entries@[l1i as int] == 0,
            t2 != 0,
            t2 % 4096 == 0,
            t2 < 0x80_0000_0000,
            !old(self).is_table_addr(t2),
            !old(self).is_leaf_oa(t2),
        ensures
            final(self).wf(),
            final(self).dynamic == old(self).dynamic,
            final(self).root.addr == old(self).root.addr,
            final(self).l3s == old(self).l3s,
            final(self).root.entries@[l1i as int] != 0,
            oa_of(final(self).root.entries@[l1i as int]) == t2,
            tbls_has(final(self).l2s@, t2),
            forall|s: int| 0 <= s < 512 ==> tbls_at(final(self).l2s@, t2)[s] == 0,
            forall|s: int| 0 <= s < 512 && s != l1i
                ==> final(self).root.entries@[s] == old(self).root.entries@[s],
            forall|va: u64| #[trigger] final(self).entry_at(va) == old(self).entry_at(va),
            forall|a: u64| #[trigger] final(self).owns_page(a)
                == (old(self).owns_page(a) || a == t2),
    {
        proof {
            lemma_page_oa_clean(t2);
            lemma_tbl_fields(t2);
        }
        let tbl = new_table(t2);
        let ghost pre = *self;
        proof {
            lemma_tbls_push(pre.l2s@, tbl);
        }
        self.l2s.push(tbl);
        self.root.entries.set(l1i, t2 | MMU_ENTRY_NEXT_TBL);
        let ghost post = *self;
        proof {
            let nl2 = post.l2s@;
            // table lookups at old addresses are untouched
            assert(forall|a: u64| a != t2 ==> tbls_has(nl2, a) == tbls_has(pre.l2s@, a));

            // local well-formedness
            assert(tbl_wf(post.root));
            assert forall|k: int| 0 <= k < nl2.len() implies tbl_wf(#[trigger] nl2[k]) by {
                if k < pre.l2s@.len() {
                    assert(tbl_wf(pre.l2s@[k]));
                }
            }
            assert(post.links_ok()) by {
                assert forall|s: int|
                    0 <= s < 512 && (#[trigger] post.root.entries@[s]) != 0 implies tbls_has(
                    nl2,
                    oa_of(post.root.entries@[s]),
                ) by {
                    if s != l1i {
                        assert(post.root.entries@[s] == pre.root.entries@[s]);
                        assert(tbls_has(pre.l2s@, oa_of(pre.root.entries@[s])));
                        if oa_of(pre.root.entries@[s]) == t2 {
                            assert(pre.is_table_addr(t2));
                        }
                    }
                }
                assert forall|k: int, s: int|
                    0 <= k < nl2.len() && 0 <= s < 512 && (#[trigger] nl2[k].entries@[s])
                        != 0 implies tbls_has(post.l3s@, oa_of(nl2[k].entries@[s])) by {
                    if k < pre.l2s@.len() {
                        assert(nl2[k] == pre.l2s@[k]);
                    } else {
                        assert(nl2[k] == tbl);
                        assert(tbl.entries@[s] == 0);
                    }
                }
            };
            assert(post.links_inj()) by {
                assert forall|s1: int, s2: int|
                    0 <= s1 < 512 && 0 <= s2 < 512 && s1 != s2 && (#[trigger] post.root.entries@[s1])
                        != 0 && (#[trigger] post.root.entries@[s2]) != 0 implies oa_of(
                    post.root.entries@[s1],
                ) != oa_of(post.root.entries@[s2]) by {
                    if s1 != l1i && s2 != l1i {
                        assert(pre.root.entries@[s1] == post.root.entries@[s1]);
                        assert(pre.root.entries@[s2] == post.root.entries@[s2]);
                    } else if s1 == l1i {
                        assert(oa_of(post.root.entries@[s1]) == t2);
                        assert(tbls_has(pre.l2s@, oa_of(pre.root.entries@[s2])));
                        if oa_of(pre.root.entries@[s2]) == t2 {
                            assert(pre.is_table_addr(t2));
                        }
                    } else {
                        assert(oa_of(post.root.entries@[s2]) == t2);
                        assert(tbls_has(pre.l2s@, oa_of(pre.root.entries@[s1])));
                        if oa_of(pre.root.entries@[s1]) == t2 {
                            assert(pre.is_table_addr(t2));
                        }
                    }
                }
                assert forall|k1: int, s1: int, k2: int, s2: int|
                    0 <= k1 < nl2.len() && 0 <= s1 < 512 && 0 <= k2 < nl2.len() && 0 <= s2 < 512
                        && (k1 != k2 || s1 != s2) && (#[trigger] nl2[k1].entries@[s1]) != 0 && (
                    #[trigger] nl2[k2].entries@[s2]) != 0 implies oa_of(nl2[k1].entries@[s1])
                    != oa_of(nl2[k2].entries@[s2]) by {
                    if k1 >= pre.l2s@.len() {
                        assert(nl2[k1] == tbl);
                        assert(tbl.entries@[s1] == 0);
                    }
                    if k2 >= pre.l2s@.len() {
                        assert(nl2[k2] == tbl);
                        assert(tbl.entries@[s2] == 0);
                    }
                    if k1 < pre.l2s@.len() && k2 < pre.l2s@.len() {
                        assert(nl2[k1] == pre.l2s@[k1] && nl2[k2] == pre.l2s@[k2]);
                    }
                }
            };
            assert(post.leaves_ok()) by {
                if post.dynamic {
                    assert forall|t: int, s: int|
                        0 <= t < post.l3s@.len() && 0 <= s < 512 && (
                        #[trigger] post.l3s@[t].entries@[s]) != 0 implies {
                        let a = oa_of(post.l3s@[t].entries@[s]);
                        a != 0 && a % 4096 == 0 && !post.is_table_addr(a)
                    } by {
                        let a = oa_of(post.l3s@[t].entries@[s]);
                        assert(pre.l3s@[t].entries@[s] == post.l3s@[t].entries@[s]);
                        assert(!pre.is_table_addr(a));
                        if a == t2 {
                            assert(pre.is_leaf_oa(t2));
                        }
                        if post.is_table_addr(a) {
                            assert(tbls_has(nl2, a) ==> tbls_has(pre.l2s@, a) || a == t2);
                            assert(pre.is_table_addr(a));
                        }
                    }
                }
            };

            // the view is untouched: the new table is empty
            assert forall|va: u64| #[trigger] post.entry_at(va) == pre.entry_at(va) by {
                let e1o = pre.root.entries@[l1_of(va)];
                let e1n = post.root.entries@[l1_of(va)];
                assert(0 <= l1_of(va) < 512) by {
                    assert(0 <= ((va >> 30) & 511) < 512) by (bit_vector);
                };
                if l1_of(va) == l1i {
                    assert(e1o == 0);
                    assert(oa_of(e1n) == t2);
                    assert(tbls_at(nl2, t2)[l2_of(va)] == 0) by {
                        assert(0 <= ((va >> 21) & 511) < 512) by (bit_vector);
                    };
                } else {
                    assert(e1n == e1o);
                    if e1o != 0 {
                        assert(tbls_has(pre.l2s@, oa_of(e1o)));
                        if oa_of(e1o) == t2 {
                            assert(pre.is_table_addr(t2));
                        }
                        assert(tbls_at(nl2, oa_of(e1o)) == tbls_at(pre.l2s@, oa_of(e1o)));
                    }
                }
            }

            // ownership grows by exactly the new table's page
            assert forall|a: u64| #[trigger] post.owns_page(a) == (pre.owns_page(a) || a
                == t2) by {
                assert(post.is_leaf_oa(a) == pre.is_leaf_oa(a)) by {
                    if post.is_leaf_oa(a) {
                        let (t, s) = choose|t: int, s: int|
                            0 <= t < post.l3s@.len() && 0 <= s < 512 && (
                            #[trigger] post.l3s@[t].entries@[s]) != 0 && oa_of(
                                post.l3s@[t].entries@[s],
                            ) == a;
                        assert(pre.l3s@[t].entries@[s] == post.l3s@[t].entries@[s]);
                        assert(pre.is_leaf_oa(a));
                    }
                    if pre.is_leaf_oa(a) {
                        let (t, s) = choose|t: int, s: int|
                            0 <= t < pre.l3s@.len() && 0 <= s < 512 && (
                            #[trigger] pre.l3s@[t].entries@[s]) != 0 && oa_of(
                                pre.l3s@[t].entries@[s],
                            ) == a;
                        assert(post.l3s@[t].entries@[s] == pre.l3s@[t].entries@[s]);
                        assert(post.is_leaf_oa(a));
                    }
                };
                if post.is_table_addr(a) && a != t2 {
                    assert(pre.is_table_addr(a));
                }
                if pre.is_table_addr(a) {
                    assert(post.is_table_addr(a)) by {
                        if tbls_has(pre.l2s@, a) {
                            assert(tbls_has(nl2, a));
                        }
                    };
                }
                assert(post.is_table_addr(t2));
            }
        }
    }
}


impl AddrSpace {
    /// Hang a fresh, empty L3 table at `t3` off slot `l2i` of L2 table
    /// `k2`.
    fn attach_l3(&mut self, t3: u64, k2: usize, l2i: usize)
        requires
            old(self).wf(),
            k2 < old(self).l2s@.len(),
            l2i < 512,
            old(self).l2s@[k2 as int].entries@[l2i as int] == 0,
            t3 != 0,
            t3 % 4096 == 0,
            t3 < 0x80_0000_0000,
            !old(self).is_table_addr(t3),
            !old(self).is_leaf_oa(t3),
        ensures
            final(self).wf(),
            final(self).dynamic == old(self).dynamic,
            final(self).root == old(self).root,
            final(self).l2s@.len() == old(self).l2s@.len(),
            final(self).l2s@[k2 as int].addr == old(self).l2s@[k2 as int].addr,
            final(self).l2s@[k2 as int].entries@[l2i as int] != 0,
            oa_of(final(self).l2s@[k2 as int].entries@[l2i as int]) == t3,
            tbls_has(final(self).l3s@, t3),
            forall|s: int| 0 <= s < 512 ==> tbls_at(final(self).l3s@, t3)[s] == 0,
            forall|va: u64| #[trigger] final(self).entry_at(va) == old(self).entry_at(va),
            forall|a: u64| #[trigger] final(self).owns_page(a)
                == (old(self).owns_page(a) || a == t3),
    {
        proof {
            lemma_page_oa_clean(t3);
            lemma_tbl_fields(t3);
        }
        let tbl = new_table(t3);
        let ghost pre = *self;
        proof {
            lemma_tbls_push(pre.l3s@, tbl);
            lemma_tbls_at_k(pre.l2s@, k2 as int);
        }
        self.l3s.push(tbl);
        self.l2_set_entry(k2, l2i, t3 | MMU_ENTRY_NEXT_TBL);
        let ghost post = *self;
        proof {
            let a2 = pre.l2s@[k2 as int].addr;
            let nl2 = post.l2s@;
            let nl3 = post.l3s@;
            let ghost upd = PageTable {
                addr: a2,
                entries: post.l2s@[k2 as int].entries,
            };
            assert(nl2 =~= pre.l2s@.update(k2 as int, nl2[k2 as int]));
            lemma_tbls_update(pre.l2s@, k2 as int, nl2[k2 as int]);
            assert(forall|a: u64| a != t3 ==> tbls_has(nl3, a) == tbls_has(pre.l3s@, a));
            assert(forall|a: u64| tbls_has(nl2, a) == tbls_has(pre.l2s@, a));

            assert(tbl_wf(post.root));
            assert forall|k: int| 0 <= k < nl2.len() implies tbl_wf(#[trigger] nl2[k]) by {
                assert(tbl_wf(pre.l2s@[k]));
                if k != k2 {
                    assert(nl2[k] == pre.l2s@[k]);
                }
            }
            assert forall|k: int| 0 <= k < nl3.len() implies tbl_wf(#[trigger] nl3[k]) by {
                if k < pre.l3s@.len() {
                    assert(tbl_wf(pre.l3s@[k]));
                }
            }
            assert(tbls_distinct(nl2)) by {
                assert forall|i: int, j: int| 0 <= i < j < nl2.len() implies (
                #[trigger] nl2[i]).addr != (#[trigger] nl2[j]).addr by {
                    assert(nl2[i].addr == pre.l2s@[i].addr && nl2[j].addr == pre.l2s@[j].addr);
                }
            };
            assert(post.links_ok()) by {
                assert forall|s: int|
                    0 <= s < 512 && (#[trigger] post.root.entries@[s]) != 0 implies tbls_has(
                    nl2,
                    oa_of(post.root.entries@[s]),
                ) by {
                    assert(tbls_has(pre.l2s@, oa_of(pre.root.entries@[s])));
                }
                assert forall|k: int, s: int|
                    0 <= k < nl2.len() && 0 <= s < 512 && (#[trigger] nl2[k].entries@[s])
                        != 0 implies tbls_has(nl3, oa_of(nl2[k].entries@[s])) by {
                    if k == k2 && s == l2i {
                        assert(oa_of(nl2[k].entries@[s]) == t3);
                    } else {
                        assert(nl2[k].entries@[s] == pre.l2s@[k].entries@[s]) by {
                            if k != k2 {
                                assert(nl2[k] == pre.l2s@[k]);
                            }
                        };
                        assert(tbls_has(pre.l3s@, oa_of(pre.l2s@[k].entries@[s])));
                        if oa_of(pre.l2s@[k].entries@[s]) == t3 {
                            assert(pre.is_table_addr(t3));
                        }
                    }
                }
            };
            assert(post.links_inj()) by {
                assert forall|k1: int, s1: int, k2x: int, s2: int|
                    0 <= k1 < nl2.len() && 0 <= s1 < 512 && 0 <= k2x < nl2.len() && 0 <= s2 < 512
                        && (k1 != k2x || s1 != s2) && (#[trigger] nl2[k1].entries@[s1]) != 0 && (
                    #[trigger] nl2[k2x].entries@[s2]) != 0 implies oa_of(nl2[k1].entries@[s1])
                    != oa_of(nl2[k2x].entries@[s2]) by {
                    let new1 = k1 == k2 && s1 == l2i;
                    let new2 = k2x == k2 && s2 == l2i;
                    if !new1 {
                        assert(nl2[k1].entries@[s1] == pre.l2s@[k1].entries@[s1]) by {
                            if k1 != k2 {
                                assert(nl2[k1] == pre.l2s@[k1]);
                            }
                        };
                    }
                    if !new2 {
                        assert(nl2[k2x].entries@[s2] == pre.l2s@[k2x].entries@[s2]) by {
                            if k2x != k2 {
                                assert(nl2[k2x] == pre.l2s@[k2x]);
                            }
                        };
                    }
                    if new1 && !new2 {
                        assert(oa_of(nl2[k1].entries@[s1]) == t3);
                        assert(tbls_has(pre.l3s@, oa_of(pre.l2s@[k2x].entries@[s2])));
                        if oa_of(pre.l2s@[k2x].entries@[s2]) == t3 {
                            assert(pre.is_table_addr(t3));
                        }
                    } else if !new1 && new2 {
                        assert(oa_of(nl2[k2x].entries@[s2]) == t3);
                        assert(tbls_has(pre.l3s@, oa_of(pre.l2s@[k1].entries@[s1])));
                        if oa_of(pre.l2s@[k1].entries@[s1]) == t3 {
                            assert(pre.is_table_addr(t3));
                        }
                    }
                }
            };
            assert(post.leaves_ok()) by {
                if post.dynamic {
                    assert forall|t: int, s: int|
                        0 <= t < nl3.len() && 0 <= s < 512 && (#[trigger] nl3[t].entries@[s])
                            != 0 implies {
                        let a = oa_of(nl3[t].entries@[s]);
                        a != 0 && a % 4096 == 0 && !post.is_table_addr(a)
                    } by {
                        let a = oa_of(nl3[t].entries@[s]);
                        if t < pre.l3s@.len() {
                            assert(nl3[t] == pre.l3s@[t]);
                            assert(!pre.is_table_addr(a));
                            if a == t3 {
                                assert(pre.is_leaf_oa(t3));
                            }
                            if post.is_table_addr(a) {
                                assert(pre.is_table_addr(a));
                            }
                        } else {
                            assert(nl3[t] == tbl);
                            assert(tbl.entries@[s] == 0);
                        }
                    }
                    assert forall|t1: int, s1: int, t2x: int, s2: int|
                        0 <= t1 < nl3.len() && 0 <= s1 < 512 && 0 <= t2x < nl3.len() && 0 <= s2
                            < 512 && (t1 != t2x || s1 != s2) && (#[trigger] nl3[t1].entries@[s1])
                            != 0 && (#[trigger] nl3[t2x].entries@[s2]) != 0 implies oa_of(
                        nl3[t1].entries@[s1],
                    ) != oa_of(nl3[t2x].entries@[s2]) by {
                        if t1 >= pre.l3s@.len() {
                            assert(nl3[t1] == tbl);
                            assert(tbl.entries@[s1] == 0);
                        }
                        if t2x >= pre.l3s@.len() {
                            assert(nl3[t2x] == tbl);
                            assert(tbl.entries@[s2] == 0);
                        }
                        if t1 < pre.l3s@.len() && t2x < pre.l3s@.len() {
                            assert(nl3[t1] == pre.l3s@[t1] && nl3[t2x] == pre.l3s@[t2x]);
                        }
                    }
                }
            };

            // the view is untouched: the new table is empty
            assert forall|va: u64| #[trigger] post.entry_at(va) == pre.entry_at(va) by {
                proof_decl_indices(va);
                let e1 = pre.root.entries@[l1_of(va)];
                if e1 != 0 {
                    let a1 = oa_of(e1);
                    assert(tbls_has(pre.l2s@, a1));
                    let t2e_pre = tbls_at(pre.l2s@, a1);
                    let t2e_post = tbls_at(nl2, a1);
                    if a1 == a2 {
                        assert(t2e_pre == pre.l2s@[k2 as int].entries@) by {
                            lemma_tbls_at_k(pre.l2s@, k2 as int);
                        };
                        assert(t2e_post == nl2[k2 as int].entries@) by {
                            lemma_tbls_at_k(nl2, k2 as int);
                        };
                        if l2_of(va) == l2i {
                            assert(t2e_pre[l2_of(va)] == 0);
                            assert(oa_of(t2e_post[l2_of(va)]) == t3);
                            assert(tbls_at(nl3, t3)[l3_of(va)] == 0);
                        } else {
                            assert(t2e_post[l2_of(va)] == t2e_pre[l2_of(va)]);
                            let e2 = t2e_pre[l2_of(va)];
                            if e2 != 0 {
                                assert(tbls_has(pre.l3s@, oa_of(e2)));
                                if oa_of(e2) == t3 {
                                    assert(pre.is_table_addr(t3));
                                }
                                assert(tbls_at(nl3, oa_of(e2)) == tbls_at(pre.l3s@, oa_of(e2)));
                            }
                        }
                    } else {
                        assert(t2e_post == t2e_pre) by {
                            let ki = choose|k: int|
                                0 <= k < pre.l2s@.len() && (#[trigger] pre.l2s@[k]).addr == a1;
                            lemma_tbls_at_k(pre.l2s@, ki);
                            assert(ki != k2);
                            assert(nl2[ki] == pre.l2s@[ki]);
                            lemma_tbls_at_k(nl2, ki);
                        };
                        let e2 = t2e_pre[l2_of(va)];
                        if e2 != 0 {
                            assert(tbls_has(pre.l3s@, oa_of(e2)));
                            if oa_of(e2) == t3 {
                                assert(pre.is_table_addr(t3));
                            }
                            assert(tbls_at(nl3, oa_of(e2)) == tbls_at(pre.l3s@, oa_of(e2)));
                        }
                    }
                }
            }

            // ownership grows by exactly the new table's page
            assert forall|a: u64| #[trigger] post.owns_page(a) == (pre.owns_page(a) || a
                == t3) by {
                assert(post.is_leaf_oa(a) == pre.is_leaf_oa(a)) by {
                    if post.is_leaf_oa(a) {
                        let (t, s) = choose|t: int, s: int|
                            0 <= t < nl3.len() && 0 <= s < 512 && (#[trigger] nl3[t].entries@[s])
                                != 0 && oa_of(nl3[t].entries@[s]) == a;
                        if t < pre.l3s@.len() {
                            assert(nl3[t] == pre.l3s@[t]);
                            assert(pre.is_leaf_oa(a));
                        } else {
                            assert(nl3[t] == tbl);
                            assert(tbl.entries@[s] == 0);
                        }
                    }
                    if pre.is_leaf_oa(a) {
                        let (t, s) = choose|t: int, s: int|
                            0 <= t < pre.l3s@.len() && 0 <= s < 512 && (
                            #[trigger] pre.l3s@[t].entries@[s]) != 0 && oa_of(
                                pre.l3s@[t].entries@[s],
                            ) == a;
                        assert(nl3[t] == pre.l3s@[t]);
                        assert(post.is_leaf_oa(a));
                    }
                };
                if post.is_table_addr(a) && a != t3 {
                    assert(pre.is_table_addr(a));
                }
                if pre.is_table_addr(a) {
                    assert(post.is_table_addr(a));
                }
                assert(post.is_table_addr(t3));
            }
        }
    }
}

/// Bind the three level indices of `va` to their ranges.
proof fn proof_decl_indices(va: u64)
    ensures
        0 <= l1_of(va) < 512,
        0 <= l2_of(va) < 512,
        0 <= l3_of(va) < 512,
{
    assert(0 <= ((va >> 30) & 511) < 512 && 0 <= ((va >> 21) & 511) < 512 && 0 <= ((va >> 12)
        & 511) < 512) by (bit_vector);
}


impl AddrSpace {
    /// The walk of `va` ends in slot `l3_of(va)` of L3 table `k3`.
    pub open spec fn walk_hits(self, va: u64, k3: int) -> bool {
        &&& 0 <= k3 < self.l3s@.len()
        &&& self.root.entries@[l1_of(va)] != 0
        &&& tbls_has(self.l2s@, oa_of(self.root.entries@[l1_of(va)]))
        &&& tbls_at(self.l2s@, oa_of(self.root.entries@[l1_of(va)]))[l2_of(va)] != 0
        &&& oa_of(tbls_at(self.l2s@, oa_of(self.root.entries@[l1_of(va)]))[l2_of(va)])
            == self.l3s@[k3].addr
    }

    /// Overwrite the leaf descriptor that `va` resolves to. Passing 0
    /// unmaps the page; anything else maps one.
    fn set_leaf(&mut self, k3: usize, l3i: usize, e: u64, Ghost(va): Ghost<u64>)
        requires
            old(self).wf(),
            k3 < old(self).l3s@.len(),
            l3i < 512,
            old(self).walk_hits(va, k3 as int),
            l3_of(va) == l3i,
            e != 0 ==> oa_of(e) != 0 && oa_of(e) % 4096 == 0,
            e != 0 && old(self).dynamic ==> !old(self).is_table_addr(oa_of(e)) && !old(
                self,
            ).is_leaf_oa(oa_of(e)),
        ensures
            final(self).wf(),
            final(self).dynamic == old(self).dynamic,
            final(self).root == old(self).root,
            final(self).l2s == old(self).l2s,
            final(self).l3s@.len() == old(self).l3s@.len(),
            final(self).entry_at(va) == e,
            forall|va2: u64| vpn_of(va2) != vpn_of(va)
                ==> final(self).entry_at(va2) == old(self).entry_at(va2),
            forall|a: u64| #[trigger] final(self).is_table_addr(a) == old(self).is_table_addr(a),
            forall|a: u64| #[trigger] final(self).is_leaf_oa(a) ==> old(self).is_leaf_oa(a) || (e
                != 0 && a == oa_of(e)),
            e != 0 && old(self).dynamic ==> final(self).is_leaf_oa(oa_of(e)),
            old(self).dynamic && old(self).entry_at(va) != 0 && oa_of(old(self).entry_at(va))
                != oa_of(e) ==> !final(self).is_leaf_oa(oa_of(old(self).entry_at(va))),
            forall|a: u64| #[trigger] old(self).is_leaf_oa(a) && a != oa_of(
                old(self).entry_at(va),
            ) ==> final(self).is_leaf_oa(a),
    {
        let ghost pre = *self;
        proof {
            lemma_tbls_at_k(pre.l3s@, k3 as int);
            proof_decl_indices(va);
        }
        self.l3_set_entry(k3, l3i, e);
        let ghost post = *self;
        proof {
            let a3 = pre.l3s@[k3 as int].addr;
            let nl3 = post.l3s@;
            assert(nl3 =~= pre.l3s@.update(k3 as int, nl3[k3 as int]));
            lemma_tbls_update(pre.l3s@, k3 as int, nl3[k3 as int]);
            assert(tbls_at(nl3, a3) == nl3[k3 as int].entries@) by {
                lemma_tbls_at_k(nl3, k3 as int);
            };
            // the walk of va ends at the rewritten slot
            assert(post.entry_at(va) == e);

            assert forall|k: int| 0 <= k < nl3.len() implies tbl_wf(#[trigger] nl3[k]) by {
                assert(tbl_wf(pre.l3s@[k]));
                if k != k3 {
                    assert(nl3[k] == pre.l3s@[k]);
                }
            }
            assert(tbls_distinct(nl3)) by {
                assert forall|i: int, j: int| 0 <= i < j < nl3.len() implies (
                #[trigger] nl3[i]).addr != (#[trigger] nl3[j]).addr by {
                    assert(nl3[i].addr == pre.l3s@[i].addr && nl3[j].addr == pre.l3s@[j].addr);
                }
            };
            assert(post.links_ok()) by {
                assert forall|k: int, s: int|
                    0 <= k < post.l2s@.len() && 0 <= s < 512 && (#[trigger] post.l2s@[k].entries@[s])
                        != 0 implies tbls_has(nl3, oa_of(post.l2s@[k].entries@[s])) by {
                    assert(tbls_has(pre.l3s@, oa_of(pre.l2s@[k].entries@[s])));
                }
            };
            // which leaf slots changed: only (k3, l3i)
            assert forall|t: int, s: int|
                0 <= t < nl3.len() && 0 <= s < 512 && (t != k3 || s != l3i) implies (
            #[trigger] nl3[t].entries@[s]) == pre.l3s@[t].entries@[s] by {
                if t != k3 {
                    assert(nl3[t] == pre.l3s@[t]);
                }
            }
            assert(post.leaves_ok()) by {
                if post.dynamic {
                    assert forall|t: int, s: int|
                        0 <= t < nl3.len() && 0 <= s < 512 && (#[trigger] nl3[t].entries@[s])
                            != 0 implies {
                        let a = oa_of(nl3[t].entries@[s]);
                        a != 0 && a % 4096 == 0 && !post.is_table_addr(a)
                    } by {
                        let a = oa_of(nl3[t].entries@[s]);
                        if t == k3 && s == l3i {
                            assert(a == oa_of(e));
                            if post.is_table_addr(a) {
                                assert(pre.is_table_addr(a));
                            }
                        } else {
                            assert(nl3[t].entries@[s] == pre.l3s@[t].entries@[s]);
                            assert(!pre.is_table_addr(a));
                            if post.is_table_addr(a) {
                                assert(pre.is_table_addr(a));
                            }
                        }
                    }
                    assert forall|t1: int, s1: int, t2: int, s2: int|
                        0 <= t1 < nl3.len() && 0 <= s1 < 512 && 0 <= t2 < nl3.len() && 0 <= s2 < 512
                            && (t1 != t2 || s1 != s2) && (#[trigger] nl3[t1].entries@[s1]) != 0 && (
                        #[trigger] nl3[t2].entries@[s2]) != 0 implies oa_of(nl3[t1].entries@[s1])
                        != oa_of(nl3[t2].entries@[s2]) by {
                        let new1 = t1 == k3 && s1 == l3i;
                        let new2 = t2 == k3 && s2 == l3i;
                        if new1 && !new2 {
                            assert(nl3[t2].entries@[s2] == pre.l3s@[t2].entries@[s2]);
                            assert(pre.is_leaf_oa(oa_of(pre.l3s@[t2].entries@[s2])));
                        } else if !new1 && new2 {
                            assert(nl3[t1].entries@[s1] == pre.l3s@[t1].entries@[s1]);
                            assert(pre.is_leaf_oa(oa_of(pre.l3s@[t1].entries@[s1])));
                        } else if !new1 && !new2 {
                            assert(nl3[t1].entries@[s1] == pre.l3s@[t1].entries@[s1]);
                            assert(nl3[t2].entries@[s2] == pre.l3s@[t2].entries@[s2]);
                        }
                    }
                }
            };

            // frame: any address with a different vpn walks elsewhere
            assert forall|va2: u64| vpn_of(va2) != vpn_of(va) implies post.entry_at(va2)
                == pre.entry_at(va2) by {
                proof_decl_indices(va2);
                lemma_vpn_of_indices(va2, va);
                let e1 = pre.root.entries@[l1_of(va2)];
                if e1 != 0 {
                    let a1 = oa_of(e1);
                    assert(tbls_has(pre.l2s@, a1));
                    let t2e = tbls_at(pre.l2s@, a1);
                    let e2 = t2e[l2_of(va2)];
                    if e2 != 0 {
                        let a2x = oa_of(e2);
                        assert(tbls_has(pre.l3s@, a2x));
                        if a2x != a3 {
                            assert(tbls_at(nl3, a2x) == tbls_at(pre.l3s@, a2x));
                        } else {
                            // same L3 table: the written slot must differ
                            assert(tbls_at(nl3, a2x) == nl3[k3 as int].entries@);
                            assert(tbls_at(pre.l3s@, a2x) == pre.l3s@[k3 as int].entries@);
                            if l3_of(va2) != l3_of(va) {
                            } else {
                                // both slots equal: show the whole walk is equal
                                let e1v = pre.root.entries@[l1_of(va)];
                                let a1v = oa_of(e1v);
                                let t2ev = tbls_at(pre.l2s@, a1v);
                                let e2v = t2ev[l2_of(va)];
                                let k1 = choose|k: int|
                                    0 <= k < pre.l2s@.len() && (#[trigger] pre.l2s@[k]).addr == a1;
                                let k1v = choose|k: int|
                                    0 <= k < pre.l2s@.len() && (#[trigger] pre.l2s@[k]).addr == a1v;
                                lemma_tbls_at_k(pre.l2s@, k1);
                                lemma_tbls_at_k(pre.l2s@, k1v);
                                assert(pre.l2s@[k1].entries@[l2_of(va2)] == e2);
                                assert(pre.l2s@[k1v].entries@[l2_of(va)] == e2v);
                                assert(oa_of(e2v) == a3);
                                // two nonzero L2 slots with the same target table
                                if k1 != k1v || l2_of(va2) != l2_of(va) {
                                    assert(oa_of(e2) != oa_of(e2v));
                                    assert(false);
                                }
                                // same slot: same table address, so same L1 target
                                assert(a1 == a1v);
                                if l1_of(va2) != l1_of(va) {
                                    assert(oa_of(pre.root.entries@[l1_of(va2)]) != oa_of(
                                        pre.root.entries@[l1_of(va)],
                                    ));
                                    assert(false);
                                }
                                assert(false);
                            }
                        }
                    }
                }
            }

            // table pages unchanged
            assert forall|a: u64| #[trigger] post.is_table_addr(a) == pre.is_table_addr(a) by {}

            // leaf ownership changes only at the rewritten slot
            assert forall|a: u64| #[trigger] post.is_leaf_oa(a) implies pre.is_leaf_oa(a) || (e != 0
                && a == oa_of(e)) by {
                if post.is_leaf_oa(a) {
                    let (t, s) = choose|t: int, s: int|
                        0 <= t < nl3.len() && 0 <= s < 512 && (#[trigger] nl3[t].entries@[s]) != 0
                            && oa_of(nl3[t].entries@[s]) == a;
                    if t == k3 && s == l3i {
                    } else {
                        assert(nl3[t].entries@[s] == pre.l3s@[t].entries@[s]);
                        assert(pre.is_leaf_oa(a));
                    }
                }
            }
            if pre.dynamic && pre.entry_at(va) != 0 && oa_of(pre.entry_at(va)) != oa_of(e) {
                let a0 = oa_of(pre.entry_at(va));
                assert(pre.entry_at(va) == pre.l3s@[k3 as int].entries@[l3i as int]);
                assert(!post.is_leaf_oa(a0)) by {
                    if post.is_leaf_oa(a0) {
                        let (t, s) = choose|t: int, s: int|
                            0 <= t < nl3.len() && 0 <= s < 512 && (#[trigger] nl3[t].entries@[s])
                                != 0 && oa_of(nl3[t].entries@[s]) == a0;
                        assert(t != k3 || s != l3i);
                        assert(nl3[t].entries@[s] == pre.l3s@[t].entries@[s]);
                        assert(oa_of(pre.l3s@[t].entries@[s]) != oa_of(
                            pre.l3s@[k3 as int].entries@[l3i as int],
                        ));
                        assert(false);
                    }
                };
            }
            assert forall|a: u64| #[trigger] pre.is_leaf_oa(a) && a != oa_of(
                pre.entry_at(va),
            ) implies post.is_leaf_oa(a) by {
                if pre.is_leaf_oa(a) && a != oa_of(pre.entry_at(va)) {
                    let (t, s) = choose|t: int, s: int|
                        0 <= t < pre.l3s@.len() && 0 <= s < 512 && (
                        #[trigger] pre.l3s@[t].entries@[s]) != 0 && oa_of(pre.l3s@[t].entries@[s])
                            == a;
                    assert(pre.entry_at(va) == pre.l3s@[k3 as int].entries@[l3i as int]);
                    if t == k3 && s == l3i {
                        assert(false);
                    }
                    assert(nl3[t].entries@[s] == pre.l3s@[t].entries@[s]);
                    assert(post.is_leaf_oa(a));
                }
            }
        }
    }
}


/// A clean output address is page-aligned and below the address-space top.
pub proof fn lemma_oa_clean_fields(a: u64)
    requires
        oa_clean(a),
    ensures
        a % 4096 == 0,
        a < 0x80_0000_0000,
{
    assert(a % 4096 == 0 && a < 0x80_0000_0000) by (bit_vector)
        requires
            a & OA_MASK == a,
    ;
}

/// A page addressed by the PMM is a nonzero, clean output address.
pub proof fn lemma_page_addr_bound(pmm: Pmm, a: u64)
    requires
        pmm.wf(),
        pmm.valid_page_addr(a),
    ensures
        a >= 4096,
        a % 4096 == 0,
        a < 0x80_0000_0000,
        oa_clean(a),
{
    let idx = pmm.page_index(a);
    lemma_fundamental_div_mod((a - pmm.startmem) as int, 4096);
    assert((a - pmm.startmem) % 4096 == 0) by (nonlinear_arith)
        requires
            a % 4096 == 0 && pmm.startmem % 4096 == 0 && a >= pmm.startmem,
    ;
    assert(a == pmm.startmem + 4096 * idx);
    assert(4096 * idx + 4096 <= 4096 * pmm.npages()) by (nonlinear_arith)
        requires
            idx < pmm.npages(),
    ;
    assert(pmm.startmem + pmm.npages() * 4096 <= 0x80_0000_0000);
    assert(4096 * pmm.npages() == pmm.npages() * 4096) by (nonlinear_arith);
    lemma_page_oa_clean(a);
}

impl AddrSpace {
    /// Walk and extend the tree for `va`, then write its leaf: the page
    /// `pa` under attributes `prot`. Missing intermediate tables come
    /// from the PMM; on exhaustion nothing is mapped and `false` comes
    /// back. In a dynamic space, a page previously mapped at this slot
    /// goes back to the allocator — no silent leak on a remap.
    #[verifier::rlimit(100)]
    pub fn map_page(&mut self, pmm: &mut Pmm, ram: &mut Ram, va: u64, pa: u64, prot: u64) -> (ok:
        bool)
        requires
            old(self).wf(),
            old(pmm).wf(),
            old(ram).wf(),
            old(pmm).within(*old(ram)),
            old(self).owned_allocated(*old(pmm)),
            pa != 0,
            oa_clean(pa),
            prot & OA_MASK == 0,
            prot & (MMU_ENTRY_NEXT_TBL | MMU_ENTRY_NEXT_PAGE) == 0,
            old(self).dynamic ==> {
                &&& !old(self).owns_page(pa)
                &&& old(pmm).valid_page_addr(pa)
                &&& old(pmm).allocated(old(pmm).page_index(pa))
            },
        ensures
            final(self).wf(),
            final(pmm).wf(),
            final(ram).wf(),
            Pmm::same_shape(*old(pmm), *final(pmm)),
            final(ram).start == old(ram).start,
            final(ram).bytes@.len() == old(ram).bytes@.len(),
            final(self).dynamic == old(self).dynamic,
            final(self).root.addr == old(self).root.addr,
            final(self).owned_allocated(*final(pmm)),
            ok ==> final(self).entry_at(va) == (pa | prot | MMU_ENTRY_NEXT_PAGE),
            forall|va2: u64| vpn_of(va2) != vpn_of(va)
                ==> final(self).entry_at(va2) == old(self).entry_at(va2),
            !ok ==> forall|va2: u64| final(self).entry_at(va2) == old(self).entry_at(va2),
            !ok ==> final(pmm).all_allocated(),
            !ok ==> final(pmm).bitmap@ == old(pmm).bitmap@ || forall|j: int|
                old(pmm).allocated(j) ==> final(pmm).allocated(j),
            old(self).entry_at(va) == 0 || !old(self).dynamic ==> forall|j: int|
                old(pmm).allocated(j) ==> final(pmm).allocated(j),
            forall|j: int| j != old(pmm).page_index(oa_of(old(self).entry_at(va))) && old(
                pmm,
            ).allocated(j) ==> final(pmm).allocated(j),
            ok && old(self).dynamic && old(self).entry_at(va) != 0 ==> !final(pmm).allocated(
                old(pmm).page_index(oa_of(old(self).entry_at(va))),
            ),
            forall|a: u64| #[trigger] final(self).owns_page(a) ==> old(self).owns_page(a) || a == pa
                || (!old(pmm).allocated(old(pmm).page_index(a)) && final(pmm).allocated(
                final(pmm).page_index(a),
            )),
            forall|a: u64| old(self).owns_page(a) && a != oa_of(old(self).entry_at(va))
                ==> final(self).owns_page(a),
            old(self).entry_at(va) == 0 ==> forall|a: u64| old(self).owns_page(a)
                ==> final(self).owns_page(a),
            ok && old(self).dynamic ==> final(self).is_leaf_oa(pa),
            !old(self).dynamic ==> forall|a: u64| #[trigger] final(self).owns_page(a)
                ==> old(self).owns_page(a) || (!old(pmm).allocated(old(pmm).page_index(a))
                && final(pmm).allocated(final(pmm).page_index(a))),
            forall|b: int| old(ram).start <= b < old(ram).end()
                && (b < old(pmm).startmem || b >= old(pmm).startmem + old(pmm).npages() * 4096
                || old(pmm).allocated((b - old(pmm).startmem) / 4096))
                ==> final(ram).byte_at(b) == old(ram).byte_at(b),
    {
        proof {
            lemma_oa_clean_fields(pa);
        }
        let l1i = extract_l1(va);
        let e1 = self.root.entries[l1i];
        let k2idx: usize;
        if e1 == 0 {
            let t2 = pmm.allocz(ram);
            if t2 == u64::MAX {
                proof {
                    assert forall|j: int| 0 <= j < pmm.npages() implies pmm.allocated(j) by {
                        assert(old(pmm).allocated(j));
                    }
                }
                return false;
            }
            proof {
                lemma_page_addr_bound(*old(pmm), t2);
                if old(self).owns_page(t2) {
                    assert(old(pmm).allocated(old(pmm).page_index(t2)));
                    assert(false);
                }
            }
            self.attach_l2(t2, l1i);
            k2idx = match self.find_l2(t2) {
                Some(k) => k,
                None => {
                    proof {
                        assert(false);
                    }
                    0
                },
            };
        } else {
            k2idx = match self.find_l2(extract_oa(e1)) {
                Some(k) => k,
                None => {
                    proof {
                        assert(tbls_has(self.l2s@, oa_of(e1)));
                        assert(false);
                    }
                    0
                },
            };
        }
        let ghost mid1_self = *self;
        let ghost mid1_pmm = *pmm;
        proof {
            assert(mid1_self.owned_allocated(mid1_pmm)) by {
                assert forall|a: u64| #[trigger] mid1_self.owns_page(a) implies
                    mid1_pmm.valid_page_addr(a) && mid1_pmm.allocated(mid1_pmm.page_index(a)) by {
                    if old(self).owns_page(a) {
                        assert(old(pmm).allocated(old(pmm).page_index(a)));
                    }
                }
            };
            lemma_tbls_at_k(self.l2s@, k2idx as int);
        }
        let l2i = extract_l2(va);
        let e2 = self.l2s[k2idx].entries[l2i];
        let k3idx: usize;
        if e2 == 0 {
            let t3 = pmm.allocz(ram);
            if t3 == u64::MAX {
                proof {
                    assert forall|j: int| 0 <= j < pmm.npages() implies pmm.allocated(j) by {
                        assert(mid1_pmm.allocated(j));
                    }
                }
                return false;
            }
            proof {
                lemma_page_addr_bound(mid1_pmm, t3);
                if mid1_self.owns_page(t3) {
                    assert(mid1_pmm.allocated(mid1_pmm.page_index(t3)));
                    assert(false);
                }
            }
            self.attach_l3(t3, k2idx, l2i);
            k3idx = match self.find_l3(t3) {
                Some(k) => k,
                None => {
                    proof {
                        assert(false);
                    }
                    0
                },
            };
        } else {
            k3idx = match self.find_l3(extract_oa(e2)) {
                Some(k) => k,
                None => {
                    proof {
                        assert(tbls_has(self.l3s@, oa_of(e2)));
                        assert(false);
                    }
                    0
                },
            };
        }
        let ghost mid2_self = *self;
        let ghost mid2_pmm = *pmm;
        proof {
            assert(mid2_self.owned_allocated(mid2_pmm)) by {
                assert forall|a: u64| #[trigger] mid2_self.owns_page(a) implies
                    mid2_pmm.valid_page_addr(a) && mid2_pmm.allocated(mid2_pmm.page_index(a)) by {
                    if mid1_self.owns_page(a) {
                        assert(mid1_pmm.allocated(mid1_pmm.page_index(a)));
                    }
                }
            };
            lemma_tbls_at_k(mid2_self.l2s@, k2idx as int);
            lemma_tbls_at_k(mid2_self.l3s@, k3idx as int);
            assert(mid2_self.walk_hits(va, k3idx as int));
            assert(mid2_self.entry_at(va) == old(self).entry_at(va));
            lemma_leaf_fields(pa, prot);
            if mid2_self.dynamic {
                assert(!mid2_self.is_table_addr(pa) && !mid2_self.is_leaf_oa(pa)) by {
                    if mid2_self.owns_page(pa) {
                        assert(mid1_self.owns_page(pa) || pa == mid2_self.l3s@[k3idx as int].addr
                            || true);
                    }
                    if mid2_self.is_table_addr(pa) || mid2_self.is_leaf_oa(pa) {
                        assert(mid2_self.owns_page(pa));
                        if old(self).owns_page(pa) {
                            assert(false);
                        }
                        assert(!old(pmm).allocated(old(pmm).page_index(pa)));
                        assert(false);
                    }
                };
            }
        }
        let l3i = extract_l3(va);
        let e3prev = self.l3s[k3idx].entries[l3i];
        proof {
            assert(e3prev == mid2_self.entry_at(va));
            if mid2_self.dynamic && e3prev != 0 {
                lemma_leaf_of_entry(mid2_self, va);
                assert(mid2_self.owns_page(oa_of(e3prev)));
                assert(oa_of(e3prev) != pa);
            }
        }
        self.set_leaf(k3idx, l3i, pa | prot | MMU_ENTRY_NEXT_PAGE, Ghost(va));
        let ghost wself = *self;
        let ghost wo = oa_of(e3prev);
        proof {
            assert forall|a: u64| #[trigger] wself.owns_page(a) implies mid2_self.owns_page(a)
                || a == pa by {
                if wself.is_leaf_oa(a) && !mid2_self.is_leaf_oa(a) {
                    assert(a == oa_of(pa | prot | MMU_ENTRY_NEXT_PAGE));
                }
            }
            assert forall|a: u64| mid2_self.owns_page(a) && a != wo implies wself.owns_page(
                a,
            ) by {
                if mid2_self.is_leaf_oa(a) {
                    assert(a != 0);
                    assert(wself.is_leaf_oa(a));
                }
            }
            if mid2_self.dynamic && e3prev != 0 {
                // the overwritten leaf is no longer owned
                assert(oa_of(pa | prot | MMU_ENTRY_NEXT_PAGE) == pa);
                assert(!wself.is_leaf_oa(wo));
                assert(!wself.is_table_addr(wo)) by {
                    assert(!mid2_self.is_table_addr(wo));
                };
                assert(!wself.owns_page(wo));
            }
        }
        if self.dynamic && e3prev != 0 {
            // the page previously mapped at this slot goes back to the
            // allocator: no silent leak on a remap
            let freed = extract_oa(e3prev);
            proof {
                assert(mid2_pmm.valid_page_addr(freed) && mid2_pmm.allocated(
                    mid2_pmm.page_index(freed),
                )) by {
                    assert(mid2_self.owns_page(freed));
                };
            }
            pmm.free(freed);
            proof {
                assert forall|a: u64| #[trigger] wself.owns_page(a) implies final(pmm).valid_page_addr(a) && final(pmm).allocated(final(pmm).page_index(a)) by {
                    assert(a != wo);
                    if mid2_self.owns_page(a) {
                        assert(mid2_pmm.allocated(mid2_pmm.page_index(a)));
                    } else {
                        assert(a == pa);
                    }
                    lemma_page_index_inj(mid2_pmm, a, freed);
                }
                assert forall|j: int|
                    j != old(pmm).page_index(oa_of(old(self).entry_at(va))) && old(pmm).allocated(
                    j,
                ) implies final(pmm).allocated(j) by {}
            }
        } else {
            proof {
                assert(wself.owned_allocated(*pmm)) by {
                    assert forall|a: u64| #[trigger] wself.owns_page(a) implies pmm.valid_page_addr(a) && pmm.allocated(pmm.page_index(a)) by {
                        if mid2_self.owns_page(a) {
                            assert(mid2_pmm.allocated(mid2_pmm.page_index(a)));
                        } else {
                            assert(a == pa);
                            assert(old(self).dynamic);
                        }
                    }
                };
            }
        }
        proof {
            assert forall|a: u64| old(self).owns_page(a) && a != oa_of(
                old(self).entry_at(va),
            ) implies final(self).owns_page(a) by {
                if old(self).owns_page(a) {
                    assert(mid1_self.owns_page(a));
                    assert(mid2_self.owns_page(a));
                }
            }
            if old(self).entry_at(va) == 0 {
                assert(oa_of(0u64) == 0) by (bit_vector);
                assert forall|a: u64| old(self).owns_page(a) implies final(self).owns_page(a) by {
                    if old(self).owns_page(a) {
                        assert(a != 0);
                        assert(mid2_self.owns_page(a));
                    }
                }
            }
            if !old(self).dynamic {
                assert forall|a: u64| #[trigger] final(self).owns_page(a) implies old(self).owns_page(a) || (!old(pmm).allocated(old(pmm).page_index(a)) && final(pmm).allocated(final(pmm).page_index(a))) by {
                    assert(!final(self).is_leaf_oa(a));
                    assert(mid2_self.owns_page(a));
                }
            }
        }
        true
    }
}


impl AddrSpace {
    /// Walk the tables for `va` and return its physical page address,
    /// or the failure sentinel when the translation finds nothing.
    pub fn vaddr_to_paddr(&self, va: u64) -> (r: u64)
        requires
            self.wf(),
        ensures
            r == self.translate(va),
    {
        let l1i = extract_l1(va);
        let e1 = self.root.entries[l1i];
        if e1 == 0 {
            return u64::MAX;
        }
        let k2 = match self.find_l2(extract_oa(e1)) {
            Some(k) => k,
            None => {
                proof {
                    assert(false);
                }
                0
            },
        };
        proof {
            lemma_tbls_at_k(self.l2s@, k2 as int);
        }
        let e2 = self.l2s[k2].entries[extract_l2(va)];
        if e2 == 0 {
            return u64::MAX;
        }
        let k3 = match self.find_l3(extract_oa(e2)) {
            Some(k) => k,
            None => {
                proof {
                    assert(false);
                }
                0
            },
        };
        proof {
            lemma_tbls_at_k(self.l3s@, k3 as int);
        }
        let e3 = self.l3s[k3].entries[extract_l3(va)];
        let ret = extract_oa(e3);
        proof {
            assert(oa_of(0u64) == 0) by (bit_vector);
        }
        if e3 == 0 || ret == 0 {
            return u64::MAX;
        }
        ret
    }

    /// Whether the walk of `va` reaches a live leaf.
    pub fn page_mapped(&self, va: u64) -> (r: bool)
        requires
            self.wf(),
        ensures
            r == self.mapped(va),
    {
        let l1i = extract_l1(va);
        let e1 = self.root.entries[l1i];
        if e1 == 0 {
            return false;
        }
        let k2 = match self.find_l2(extract_oa(e1)) {
            Some(k) => k,
            None => {
                proof {
                    assert(false);
                }
                0
            },
        };
        proof {
            lemma_tbls_at_k(self.l2s@, k2 as int);
        }
        let e2 = self.l2s[k2].entries[extract_l2(va)];
        if e2 == 0 {
            return false;
        }
        let k3 = match self.find_l3(extract_oa(e2)) {
            Some(k) => k,
            None => {
                proof {
                    assert(false);
                }
                0
            },
        };
        proof {
            lemma_tbls_at_k(self.l3s@, k3 as int);
        }
        let e3 = self.l3s[k3].entries[extract_l3(va)];
        e3 != 0
    }

    /// Clear the leaf of `va`, handing back the descriptor that was
    /// there so the caller can release the page it named.
    pub fn clear_leaf(&mut self, va: u64) -> (was: u64)
        requires
            old(self).wf(),
        ensures
            final(self).wf(),
            final(self).dynamic == old(self).dynamic,
            final(self).root.addr == old(self).root.addr,
            was == old(self).entry_at(va),
            final(self).entry_at(va) == 0,
            forall|va2: u64| vpn_of(va2) != vpn_of(va)
                ==> final(self).entry_at(va2) == old(self).entry_at(va2),
            forall|a: u64| #[trigger] final(self).owns_page(a) ==> old(self).owns_page(a),
            forall|a: u64| #[trigger] old(self).owns_page(a) && a != oa_of(was)
                ==> final(self).owns_page(a),
            forall|a: u64| #[trigger] final(self).is_table_addr(a) == old(self).is_table_addr(a),
            old(self).dynamic && was != 0 ==> !final(self).owns_page(oa_of(was)),
    {
        let l1i = extract_l1(va);
        let e1 = self.root.entries[l1i];
        if e1 == 0 {
            return 0;
        }
        let k2 = match self.find_l2(extract_oa(e1)) {
            Some(k) => k,
            None => {
                proof {
                    assert(false);
                }
                0
            },
        };
        proof {
            lemma_tbls_at_k(self.l2s@, k2 as int);
        }
        let e2 = self.l2s[k2].entries[extract_l2(va)];
        if e2 == 0 {
            return 0;
        }
        let k3 = match self.find_l3(extract_oa(e2)) {
            Some(k) => k,
            None => {
                proof {
                    assert(false);
                }
                0
            },
        };
        proof {
            lemma_tbls_at_k(self.l3s@, k3 as int);
        }
        let l3i = extract_l3(va);
        let e3 = self.l3s[k3].entries[l3i];
        if e3 == 0 {
            return 0;
        }
        let ghost pre = *self;
        proof {
            assert(pre.walk_hits(va, k3 as int));
            proof_decl_indices(va);
            if pre.dynamic {
                assert(pre.is_leaf_oa(oa_of(e3))) by {
                    assert(pre.l3s@[k3 as int].entries@[l3i as int] == e3);
                };
            }
        }
        self.set_leaf(k3, l3i, 0, Ghost(va));
        proof {
            if pre.dynamic {
                assert(oa_of(0u64) == 0) by (bit_vector);
                assert(oa_of(e3) != 0);
                assert(!final(self).is_leaf_oa(oa_of(e3)));
                assert(!pre.is_table_addr(oa_of(e3))) by {
                    assert(pre.l3s@[k3 as int].entries@[l3i as int] == e3);
                };
            }
            assert forall|a: u64| #[trigger] pre.owns_page(a) && a != oa_of(e3) implies final(self).owns_page(a) by {
                if pre.is_leaf_oa(a) && a != oa_of(e3) {
                    assert(final(self).is_leaf_oa(a));
                }
            }
        }
        e3
    }
}


/// The manager of every live address space, with the linear-mapping
/// offset and the bounds of physical memory it serves.
pub struct Mmu {
    pub spaces: Vec<AddrSpace>,
    pub linear: u64,
    pub ttbr: u64,
    pub phys_start: u64,
    pub phys_stop: u64,
}

impl Mmu {
    /// The system invariant tying every space to the page allocator:
    /// each space is well formed, every page a space owns is a live
    /// PMM allocation, and no page is claimed twice.
    pub open spec fn inv(self, pmm: Pmm) -> bool {
        &&& pmm.wf()
        &&& forall|i: int| 0 <= i < self.spaces@.len() ==> (#[trigger] self.spaces@[i]).wf()
        &&& forall|i: int| 0 <= i < self.spaces@.len()
            ==> (#[trigger] self.spaces@[i]).owned_allocated(pmm)
        &&& forall|i: int, j: int|
            0 <= i < self.spaces@.len() && 0 <= j < self.spaces@.len() && i != j
                ==> (#[trigger] self.spaces@[i]).disjoint_from(#[trigger] self.spaces@[j])
    }

    pub open spec fn has_root(self, root: u64) -> bool {
        exists|i: int| 0 <= i < self.spaces@.len() && (#[trigger] self.spaces@[i]).root.addr == root
    }

    pub open spec fn space_index(self, root: u64) -> int {
        choose|i: int| 0 <= i < self.spaces@.len() && (#[trigger] self.spaces@[i]).root.addr == root
    }

    /// The space owning table root `root`.
    pub open spec fn space_at(self, root: u64) -> AddrSpace {
        self.spaces@[self.space_index(root)]
    }

    pub open spec fn translate(self, root: u64, va: u64) -> u64 {
        self.space_at(root).translate(va)
    }

    pub open spec fn mapped(self, root: u64, va: u64) -> bool {
        self.space_at(root).mapped(va)
    }

    pub open spec fn entry_at(self, root: u64, va: u64) -> u64 {
        self.space_at(root).entry_at(va)
    }
}

/// Under the invariant roots are unique, so the space found at index
/// `i` is the space of its root.
pub proof fn lemma_space_at(m: Mmu, pmm: Pmm, i: int)
    requires
        m.inv(pmm),
        0 <= i < m.spaces@.len(),
    ensures
        m.has_root(m.spaces@[i].root.addr),
        m.space_index(m.spaces@[i].root.addr) == i,
        m.space_at(m.spaces@[i].root.addr) == m.spaces@[i],
{
    let root = m.spaces@[i].root.addr;
    assert(m.has_root(root));
    let j = m.space_index(root);
    if j != i {
        assert(m.spaces@[i].owns_page(root));
        assert(m.spaces@[j].owns_page(root));
        assert(m.spaces@[i].disjoint_from(m.spaces@[j]));
        assert(false);
    }
}

impl Mmu {
    /// Index of the space whose root table sits at `root`.
    pub fn find_space(&self, root: u64) -> (r: Option<usize>)
        ensures
            match r {
                Some(i) => i < self.spaces@.len() && self.spaces@[i as int].root.addr == root,
                None => !self.has_root(root),
            },
    {
        let n = self.spaces.len();
        let mut i: usize = 0;
        while i < n
            invariant
                i <= n,
                n == self.spaces@.len(),
                forall|j: int| 0 <= j < i ==> (#[trigger] self.spaces@[j]).root.addr != root,
            decreases n - i,
        {
            if self.spaces[i].root.addr == root {
                return Some(i);
            }
            i = i + 1;
        }
        None
    }
}

/// Allocate the root of a new, empty address space and hand back its
/// physical address, or the sentinel on exhaustion.
fn create_space(mmu: &mut Mmu, pmm: &mut Pmm, ram: &mut Ram, dynamic: bool) -> (r: u64)
    requires
        old(mmu).inv(*old(pmm)),
        old(ram).wf(),
        old(pmm).within(*old(ram)),
    ensures
        final(mmu).inv(*final(pmm)),
        final(ram).wf(),
        final(pmm).within(*final(ram)),
        Pmm::same_shape(*old(pmm), *final(pmm)),
        final(ram).start == old(ram).start,
        final(ram).bytes@.len() == old(ram).bytes@.len(),
        final(mmu).linear == old(mmu).linear,
        final(mmu).ttbr == old(mmu).ttbr,
        forall|j: int| old(pmm).allocated(j) ==> final(pmm).allocated(j),
        forall|b: int| old(ram).start <= b < old(ram).end()
            && (b < old(pmm).startmem || b >= old(pmm).startmem + old(pmm).npages() * 4096
            || old(pmm).allocated((b - old(pmm).startmem) / 4096))
            ==> final(ram).byte_at(b) == old(ram).byte_at(b),
        r == u64::MAX ==> final(mmu).spaces@ == old(mmu).spaces@ && final(pmm).all_allocated(),
        r != u64::MAX ==> {
            &&& final(mmu).spaces@.len() == old(mmu).spaces@.len() + 1
            &&& forall|i: int| 0 <= i < old(mmu).spaces@.len()
                ==> final(mmu).spaces@[i] == old(mmu).spaces@[i]
            &&& final(mmu).spaces@[old(mmu).spaces@.len() as int].root.addr == r
            &&& final(mmu).spaces@[old(mmu).spaces@.len() as int].dynamic == dynamic
            &&& !old(mmu).has_root(r)
            &&& final(mmu).has_root(r)
            &&& forall|va: u64| final(mmu).entry_at(r, va) == 0
            &&& !old(pmm).allocated(old(pmm).page_index(r))
            &&& old(pmm).valid_page_addr(r)
        },
{
    let p = pmm.allocz(ram);
    if p == u64::MAX {
        proof {
            assert forall|j: int| 0 <= j < pmm.npages() implies pmm.allocated(j) by {
                assert(old(pmm).allocated(j));
            }
        }
        return u64::MAX;
    }
    proof {
        lemma_page_addr_bound(*old(pmm), p);
        assert forall|b: int| old(ram).start <= b < old(ram).end()
            && (b < old(pmm).startmem || b >= old(pmm).startmem + old(pmm).npages() * 4096
            || old(pmm).allocated((b - old(pmm).startmem) / 4096)) implies ram.byte_at(b) == old(
            ram,
        ).byte_at(b) by {
            if old(pmm).startmem <= b < old(pmm).startmem + old(pmm).npages() * 4096 {
                lemma_fresh_page_frame(*old(pmm), p, b);
            } else {
                assert(!(p <= b < p + 4096)) by {
                    lemma_page_addr_bound(*old(pmm), p);
                    lemma_fundamental_div_mod((p - old(pmm).startmem) as int, 4096);
                    let pi = old(pmm).page_index(p);
                    let np = old(pmm).npages();
                    assert(4096 * (pi + 1) <= 4096 * np) by (nonlinear_arith)
                        requires
                            pi < np,
                    ;
                    assert(4096 * np == np * 4096) by (nonlinear_arith);
                };
            }
        }
        assert forall|i: int| 0 <= i < old(mmu).spaces@.len() implies !(
        #[trigger] old(mmu).spaces@[i]).owns_page(p) by {
            if old(mmu).spaces@[i].owns_page(p) {
                assert(old(pmm).allocated(old(pmm).page_index(p)));
            }
        }
    }
    let root = new_table(p);
    let sp = AddrSpace { root, l2s: Vec::new(), l3s: Vec::new(), dynamic };
    proof {
        assert(sp.wf()) by {
            assert(sp.l2s@.len() == 0 && sp.l3s@.len() == 0);
        };
        assert forall|a: u64| #[trigger] sp.owns_page(a) implies a == p by {
            if tbls_has(sp.l2s@, a) || tbls_has(sp.l3s@, a) {
                assert(false);
            }
            if sp.is_leaf_oa(a) {
                assert(false);
            }
        }
    }
    mmu.spaces.push(sp);
    proof {
        let n = old(mmu).spaces@.len() as int;
        assert(final(mmu).spaces@[n] == sp);
        assert(final(mmu).inv(*final(pmm))) by {
            assert forall|i: int| 0 <= i < final(mmu).spaces@.len() implies (
            #[trigger] final(mmu).spaces@[i]).wf() by {
                if i < n {
                    assert(final(mmu).spaces@[i] == old(mmu).spaces@[i]);
                }
            }
            assert forall|i: int| 0 <= i < final(mmu).spaces@.len() implies (
            #[trigger] final(mmu).spaces@[i]).owned_allocated(*final(pmm)) by {
                if i < n {
                    let spi = old(mmu).spaces@[i];
                    assert forall|a: u64| #[trigger] spi.owns_page(a) implies final(pmm).valid_page_addr(a) && final(pmm).allocated(final(pmm).page_index(a)) by {
                        assert(old(pmm).allocated(old(pmm).page_index(a)));
                    }
                } else {
                    assert forall|a: u64| #[trigger] sp.owns_page(a) implies final(pmm).valid_page_addr(a) && final(pmm).allocated(final(pmm).page_index(a)) by {
                        assert(a == p);
                    }
                }
            }
            assert forall|i: int, j: int|
                0 <= i < final(mmu).spaces@.len() && 0 <= j < final(mmu).spaces@.len() && i
                    != j implies (#[trigger] final(mmu).spaces@[i]).disjoint_from(
                #[trigger] final(mmu).spaces@[j]) by {
                if i < n && j < n {
                    assert(old(mmu).spaces@[i].disjoint_from(old(mmu).spaces@[j]));
                } else if i == n {
                    assert forall|a: u64| !(#[trigger] sp.owns_page(a)
                        && #[trigger] old(mmu).spaces@[j].owns_page(a)) by {
                        if sp.owns_page(a) {
                            assert(a == p);
                        }
                    }
                } else {
                    assert forall|a: u64| !(#[trigger] old(mmu).spaces@[i].owns_page(a)
                        && #[trigger] sp.owns_page(a)) by {
                        if sp.owns_page(a) {
                            assert(a == p);
                        }
                    }
                }
            }
        };
        assert(!old(mmu).has_root(p)) by {
            if old(mmu).has_root(p) {
                let i = choose|i: int|
                    0 <= i < old(mmu).spaces@.len() && (#[trigger] old(mmu).spaces@[i]).root.addr
                        == p;
                assert(old(mmu).spaces@[i].owns_page(p));
                assert(old(pmm).allocated(old(pmm).page_index(p)));
            }
        };
        lemma_space_at(*final(mmu), *final(pmm), n);
        assert forall|va: u64| final(mmu).entry_at(p, va) == 0 by {
            proof_decl_indices(va);
            assert(final(mmu).space_at(p) == sp);
            assert(sp.root.entries@[l1_of(va)] == 0);
        }
    }
    p
}


/// Distinct pages within the 39-bit window have distinct page numbers.
pub proof fn lemma_vpn_distinct(va: u64, d: u64)
    requires
        0 < d < 0x80_0000_0000,
        d % 4096 == 0,
        va + d <= u64::MAX,
    ensures
        vpn_of(va) != vpn_of((va + d) as u64),
{
    assert(((va >> 12) & 0x7FF_FFFF) != ((((va + d) as u64) >> 12) & 0x7FF_FFFF)) by (bit_vector)
        requires
            0 < d < 0x80_0000_0000 && d % 4096 == 0 && va + d <= u64::MAX,
    ;
}

/// An address strictly below a page boundary, within the 39-bit
/// window, lies on a different page.
pub proof fn lemma_vpn_below_page(x: u64, p: u64)
    requires
        p % 4096 == 0,
        x < p,
        p - x <= 0x7F_FFFF_F000,
    ensures
        vpn_of(x) != vpn_of(p),
{
    assert(((x >> 12) & 0x7FF_FFFF) != ((p >> 12) & 0x7FF_FFFF)) by (bit_vector)
        requires
            p % 4096 == 0 && x < p && p - x <= 0x7F_FFFF_F000,
    ;
}

/// Allocate one fresh page and map it at `va` in the space rooted at
/// `pud`, releasing whatever page a dynamic space had mapped there
/// before (no silent leak). Nonzero means the allocator is out of
/// pages.
pub fn alloc_page(mmu: &mut Mmu, pmm: &mut Pmm, ram: &mut Ram, pud: u64, va: u64, prot: u64) -> (r:
    i32)
    requires
        old(mmu).inv(*old(pmm)),
        old(ram).wf(),
        old(pmm).within(*old(ram)),
        old(mmu).has_root(pud),
        prot & OA_MASK == 0,
        prot & (MMU_ENTRY_NEXT_TBL | MMU_ENTRY_NEXT_PAGE) == 0,
    ensures
        final(mmu).inv(*final(pmm)),
        final(ram).wf(),
        final(pmm).within(*final(ram)),
        Pmm::same_shape(*old(pmm), *final(pmm)),
        final(ram).start == old(ram).start,
        final(ram).bytes@.len() == old(ram).bytes@.len(),
        final(mmu).linear == old(mmu).linear,
        final(mmu).ttbr == old(mmu).ttbr,
        final(mmu).spaces@.len() == old(mmu).spaces@.len(),
        forall|i: int| 0 <= i < old(mmu).spaces@.len()
            ==> (#[trigger] final(mmu).spaces@[i]).root.addr == old(mmu).spaces@[i].root.addr
                && final(mmu).spaces@[i].dynamic == old(mmu).spaces@[i].dynamic,
        forall|i: int| 0 <= i < old(mmu).spaces@.len() && i != old(mmu).space_index(pud)
            ==> final(mmu).spaces@[i] == old(mmu).spaces@[i],
        !old(mmu).mapped(pud, va) || !old(mmu).space_at(pud).dynamic ==> forall|j: int|
            old(pmm).allocated(j) ==> final(pmm).allocated(j),
        forall|j: int| j != old(pmm).page_index(oa_of(old(mmu).entry_at(pud, va))) && old(
            pmm,
        ).allocated(j) ==> final(pmm).allocated(j),
        r == 0 && old(mmu).space_at(pud).dynamic && old(mmu).mapped(pud, va)
            ==> !final(pmm).allocated(old(pmm).page_index(oa_of(old(mmu).entry_at(pud, va)))),
        r == 0 ==> {
            let p = final(mmu).translate(pud, va);
            &&& p != u64::MAX
            &&& p != 0
            &&& final(mmu).entry_at(pud, va) == (p | prot | MMU_ENTRY_NEXT_PAGE)
            &&& old(pmm).valid_page_addr(p)
            &&& !old(pmm).allocated(old(pmm).page_index(p))
            &&& final(pmm).allocated(final(pmm).page_index(p))
            &&& forall|b: int| p <= b < p + 4096 ==> final(ram).byte_at(b) == 0
        },
        forall|va2: u64| vpn_of(va2) != vpn_of(va)
            ==> final(mmu).entry_at(pud, va2) == old(mmu).entry_at(pud, va2),
        r != 0 ==> forall|va2: u64| final(mmu).entry_at(pud, va2) == old(mmu).entry_at(pud, va2),
        r != 0 ==> final(pmm).all_allocated(),
        forall|b: int| old(ram).start <= b < old(ram).end()
            && (b < old(pmm).startmem || b >= old(pmm).startmem + old(pmm).npages() * 4096
            || old(pmm).allocated((b - old(pmm).startmem) / 4096))
            ==> final(ram).byte_at(b) == old(ram).byte_at(b),
{
    let i = match mmu.find_space(pud) {
        Some(i) => i,
        None => {
            proof {
                assert(false);
            }
            0
        },
    };
    proof {
        lemma_space_at(*old(mmu), *old(pmm), i as int);
    }
    let p = pmm.allocz(ram);
    if p == u64::MAX {
        proof {
            assert forall|j: int| 0 <= j < pmm.npages() implies pmm.allocated(j) by {
                assert(old(pmm).allocated(j));
            }
        }
        return -1;
    }
    proof {
        lemma_page_addr_bound(*old(pmm), p);
        assert forall|j: int| 0 <= j < old(mmu).spaces@.len() implies !(
        #[trigger] old(mmu).spaces@[j]).owns_page(p) by {
            if old(mmu).spaces@[j].owns_page(p) {
                assert(old(pmm).allocated(old(pmm).page_index(p)));
            }
        }
    }
    let ghost pmm1 = *pmm;
    let mut sp = mmu.spaces.remove(i);
    proof {
        assert(sp.owned_allocated(pmm1)) by {
            assert forall|a: u64| #[trigger] sp.owns_page(a) implies pmm1.valid_page_addr(a)
                && pmm1.allocated(pmm1.page_index(a)) by {
                assert(old(pmm).allocated(old(pmm).page_index(a)));
            }
        };
    }
    let ok = sp.map_page(pmm, ram, va, p, prot);
    mmu.spaces.insert(i, sp);
    proof {
        lemma_seq_update_via_remove(old(mmu).spaces@, i as int, final(mmu).spaces@[i as int]);
        let nsp = final(mmu).spaces@[i as int];
        let osp = old(mmu).spaces@[i as int];
        assert(final(mmu).inv(*final(pmm))) by {
            assert forall|j: int| 0 <= j < final(mmu).spaces@.len() implies (
            #[trigger] final(mmu).spaces@[j]).wf() by {
                if j != i {
                    assert(final(mmu).spaces@[j] == old(mmu).spaces@[j]);
                }
            }
            let wo = oa_of(osp.entry_at(va));
            assert forall|j: int| 0 <= j < final(mmu).spaces@.len() implies (
            #[trigger] final(mmu).spaces@[j]).owned_allocated(*final(pmm)) by {
                if j != i {
                    let spj = old(mmu).spaces@[j];
                    assert forall|a: u64| #[trigger] spj.owns_page(a) implies final(pmm).valid_page_addr(a) && final(pmm).allocated(final(pmm).page_index(a)) by {
                        assert(old(pmm).allocated(old(pmm).page_index(a)));
                        assert(pmm1.allocated(pmm1.page_index(a)));
                        if osp.dynamic && osp.entry_at(va) != 0 {
                            // the released leaf belonged to the touched
                            // space, never to another
                            assert(osp.owns_page(wo)) by {
                                lemma_leaf_of_entry(osp, va);
                            };
                            assert(osp.disjoint_from(spj) || j == i);
                            assert(old(mmu).spaces@[i as int].disjoint_from(old(mmu).spaces@[j]));
                            assert(a != wo);
                            assert(old(pmm).valid_page_addr(wo)) by {
                                assert(osp.owned_allocated(*old(pmm)));
                            };
                            lemma_page_index_inj(*old(pmm), a, wo);
                        }
                    }
                }
            }
            assert forall|j: int, k: int|
                0 <= j < final(mmu).spaces@.len() && 0 <= k < final(mmu).spaces@.len() && j
                    != k implies (#[trigger] final(mmu).spaces@[j]).disjoint_from(
                #[trigger] final(mmu).spaces@[k]) by {
                if j != i && k != i {
                    assert(final(mmu).spaces@[j] == old(mmu).spaces@[j]);
                    assert(final(mmu).spaces@[k] == old(mmu).spaces@[k]);
                    assert(old(mmu).spaces@[j].disjoint_from(old(mmu).spaces@[k]));
                } else if j == i {
                    let spk = old(mmu).spaces@[k];
                    assert forall|a: u64| !(#[trigger] nsp.owns_page(a) && #[trigger] spk.owns_page(
                        a,
                    )) by {
                        if nsp.owns_page(a) && spk.owns_page(a) {
                            assert(spk.owns_page(a) ==> pmm1.allocated(pmm1.page_index(a)));
                            if osp.owns_page(a) {
                                assert(osp.disjoint_from(spk));
                                assert(false);
                            } else if a == p {
                                assert(false);
                            } else {
                                assert(!pmm1.allocated(pmm1.page_index(a)));
                                assert(false);
                            }
                        }
                    }
                } else {
                    let spj = old(mmu).spaces@[j];
                    assert forall|a: u64| !(#[trigger] spj.owns_page(a) && #[trigger] nsp.owns_page(
                        a,
                    )) by {
                        if spj.owns_page(a) && nsp.owns_page(a) {
                            assert(spj.owns_page(a) ==> pmm1.allocated(pmm1.page_index(a)));
                            if osp.owns_page(a) {
                                assert(osp.disjoint_from(spj));
                                assert(false);
                            } else if a == p {
                                assert(false);
                            } else {
                                assert(!pmm1.allocated(pmm1.page_index(a)));
                                assert(false);
                            }
                        }
                    }
                }
            }
        };
        lemma_space_at(*final(mmu), *final(pmm), i as int);
        assert(final(mmu).space_at(pud) == nsp);
        if ok {
            assert(nsp.entry_at(va) == (p | prot | MMU_ENTRY_NEXT_PAGE));
            lemma_leaf_fields(p, prot);
            assert(final(mmu).translate(pud, va) == p);
            // the fresh page's bit survives the release of the old leaf
            assert(final(pmm).allocated(final(pmm).page_index(p))) by {
                if osp.dynamic && osp.entry_at(va) != 0 {
                    let wo2 = oa_of(osp.entry_at(va));
                    assert(osp.owns_page(wo2)) by {
                        lemma_leaf_of_entry(osp, va);
                    };
                    assert(old(pmm).valid_page_addr(wo2)) by {
                        assert(osp.owned_allocated(*old(pmm)));
                    };
                    assert(p != wo2) by {
                        assert(old(pmm).allocated(old(pmm).page_index(wo2)));
                    };
                    lemma_page_index_inj(*old(pmm), p, wo2);
                    assert(pmm1.allocated(pmm1.page_index(p)));
                }
            };
        }
    }
    if ok {
        0
    } else {
        -1
    }
}


/// Clear the leaf of `va` in `sp`; for a dynamic space the page the
/// leaf named goes back to the allocator.
fn release_page(sp: &mut AddrSpace, pmm: &mut Pmm, va: u64)
    requires
        old(sp).wf(),
        old(pmm).wf(),
        old(sp).owned_allocated(*old(pmm)),
    ensures
        final(sp).wf(),
        final(pmm).wf(),
        Pmm::same_shape(*old(pmm), *final(pmm)),
        final(sp).dynamic == old(sp).dynamic,
        final(sp).root.addr == old(sp).root.addr,
        final(sp).owned_allocated(*final(pmm)),
        final(sp).entry_at(va) == 0,
        forall|va2: u64| vpn_of(va2) != vpn_of(va)
            ==> final(sp).entry_at(va2) == old(sp).entry_at(va2),
        forall|a: u64| #[trigger] final(sp).owns_page(a) ==> old(sp).owns_page(a),
        forall|j: int| final(pmm).allocated(j) ==> old(pmm).allocated(j),
        forall|j: int| old(pmm).allocated(j) && final(pmm).allocated(j) == false
            ==> old(sp).owns_page(old(sp).page_of_index(j, *old(pmm))),
        forall|a: u64| old(pmm).valid_page_addr(a) && !old(sp).owns_page(a)
            ==> final(pmm).allocated(old(pmm).page_index(a)) == old(pmm).allocated(
                old(pmm).page_index(a),
            ),
        !old(sp).dynamic ==> final(pmm).bitmap@ == old(pmm).bitmap@,
        old(sp).dynamic && old(sp).entry_at(va) != 0 ==> !final(pmm).allocated(
            old(pmm).page_index(oa_of(old(sp).entry_at(va))),
        ),
{
    let was = sp.clear_leaf(va);
    if sp.dynamic && was != 0 {
        let pa = extract_oa(was);
        proof {
            assert(old(sp).is_leaf_oa(pa)) by {
                assert(old(sp).entry_at(va) == was);
                assert(old(sp).mapped(va));
                lemma_leaf_of_entry(*old(sp), va);
            };
            assert(old(sp).owns_page(pa));
            assert(old(pmm).valid_page_addr(pa) && old(pmm).allocated(old(pmm).page_index(pa)));
        }
        pmm.free(pa);
        proof {
            assert forall|a: u64| #[trigger] final(sp).owns_page(a) implies final(pmm).valid_page_addr(a) && final(pmm).allocated(final(pmm).page_index(a)) by {
                assert(old(sp).owns_page(a));
                assert(old(pmm).allocated(old(pmm).page_index(a)));
                assert(a != pa);
                lemma_page_index_inj(*old(pmm), a, pa);
            }
            assert forall|j: int| old(pmm).allocated(j) && final(pmm).allocated(j)
                == false implies old(sp).owns_page(old(sp).page_of_index(j, *old(pmm))) by {
                assert(j == old(pmm).page_index(pa));
                lemma_page_addr_bound(*old(pmm), pa);
                assert(old(sp).page_of_index(j, *old(pmm)) == pa) by {
                    lemma_fundamental_div_mod((pa - old(pmm).startmem) as int, 4096);
                };
            }
            assert forall|a: u64| old(pmm).valid_page_addr(a) && !old(sp).owns_page(a) implies
                final(pmm).allocated(old(pmm).page_index(a)) == old(pmm).allocated(
                old(pmm).page_index(a),
            ) by {
                if old(pmm).page_index(a) == old(pmm).page_index(pa) {
                    lemma_page_index_inj(*old(pmm), a, pa);
                }
            }
        }
    }
}

/// A mapped leaf of a dynamic space is one of its owned pages.
proof fn lemma_leaf_of_entry(sp: AddrSpace, va: u64)
    requires
        sp.wf(),
        sp.dynamic,
        sp.entry_at(va) != 0,
    ensures
        sp.is_leaf_oa(oa_of(sp.entry_at(va))),
        oa_of(sp.entry_at(va)) != 0,
{
    proof_decl_indices(va);
    let e1 = sp.root.entries@[l1_of(va)];
    let a1 = oa_of(e1);
    let t2 = tbls_at(sp.l2s@, a1);
    let e2 = t2[l2_of(va)];
    let a2 = oa_of(e2);
    let t3 = tbls_at(sp.l3s@, a2);
    let k = choose|k: int| 0 <= k < sp.l3s@.len() && (#[trigger] sp.l3s@[k]).addr == a2;
    lemma_tbls_at_k(sp.l3s@, k);
    assert(sp.l3s@[k].entries@[l3_of(va)] == sp.entry_at(va));
}

/// Two distinct valid page addresses index distinct bitmap slots.
proof fn lemma_page_index_inj(pmm: Pmm, a: u64, b: u64)
    requires
        pmm.wf(),
        pmm.valid_page_addr(a),
        pmm.valid_page_addr(b),
        a != b,
    ensures
        pmm.page_index(a) != pmm.page_index(b),
{
    lemma_fundamental_div_mod((a - pmm.startmem) as int, 4096);
    lemma_fundamental_div_mod((b - pmm.startmem) as int, 4096);
    assert((a - pmm.startmem) % 4096 == 0 && (b - pmm.startmem) % 4096 == 0)
        by (nonlinear_arith)
        requires
            a % 4096 == 0 && b % 4096 == 0 && pmm.startmem % 4096 == 0 && a >= pmm.startmem && b
                >= pmm.startmem,
    ;
}

impl AddrSpace {
    /// The address of the page at bitmap slot `j` (specification aid).
    pub open spec fn page_of_index(self, j: int, pmm: Pmm) -> u64 {
        (pmm.startmem + 4096 * j) as u64
    }
}


/// Addresses with the same page number walk to the same leaf.
proof fn lemma_entry_at_vpn(sp: AddrSpace, va1: u64, va2: u64)
    requires
        vpn_of(va1) == vpn_of(va2),
    ensures
        sp.entry_at(va1) == sp.entry_at(va2),
{
    lemma_vpn_of_indices(va1, va2);
}

/// Walk `pages` pages from `vaddr` and report how many are free before
/// the first mapped one; `pages` means the whole run is unmapped.
pub fn pages_available(mmu: &Mmu, pmm: &Pmm, pud: u64, vaddr: u64, pages: i32) -> (r: i32)
    requires
        mmu.inv(*pmm),
        mmu.has_root(pud),
        0 <= pages <= 0x800_0000,
        vaddr + pages * 4096 <= u64::MAX,
    ensures
        0 <= r <= pages,
        r < pages ==> mmu.mapped(pud, (vaddr + r * 4096) as u64),
        forall|k: int| 0 <= k < r ==> !#[trigger] mmu.mapped(pud, (vaddr + k * 4096) as u64),
{
    let i = match mmu.find_space(pud) {
        Some(i) => i,
        None => {
            proof {
                assert(false);
            }
            0
        },
    };
    proof {
        lemma_space_at(*mmu, *pmm, i as int);
    }
    let mut k: i32 = 0;
    while k < pages
        invariant
            0 <= k <= pages,
            pages <= 0x800_0000,
            vaddr + pages * 4096 <= u64::MAX,
            i < mmu.spaces@.len(),
            mmu.spaces@[i as int].wf(),
            mmu.space_at(pud) == mmu.spaces@[i as int],
            forall|j: int| 0 <= j < k ==> !#[trigger] mmu.mapped(pud, (vaddr + j * 4096) as u64),
        decreases pages - k,
    {
        let va = vaddr + (k as u64) * 4096;
        if mmu.spaces[i].page_mapped(va) {
            return k;
        }
        k = k + 1;
    }
    pages
}

/// Unmap `pages` pages from `vaddr` in the space rooted at `pud`,
/// returning each dynamic space's leaf page to the allocator. The
/// wrap guard excludes the very top page, as in the range allocation.
pub fn unmap_pages(mmu: &mut Mmu, pmm: &mut Pmm, pud: u64, vaddr: u64, pages: i32) -> (r: i32)
    requires
        old(mmu).inv(*old(pmm)),
        old(mmu).has_root(pud),
        0 <= pages <= 0x800_0000,
        vaddr + pages * 4096 <= u64::MAX,
    ensures
        r == 0,
        final(mmu).inv(*final(pmm)),
        Pmm::same_shape(*old(pmm), *final(pmm)),
        final(mmu).linear == old(mmu).linear,
        final(mmu).ttbr == old(mmu).ttbr,
        final(mmu).spaces@.len() == old(mmu).spaces@.len(),
        forall|i: int| 0 <= i < old(mmu).spaces@.len()
            ==> (#[trigger] final(mmu).spaces@[i]).root.addr == old(mmu).spaces@[i].root.addr
                && final(mmu).spaces@[i].dynamic == old(mmu).spaces@[i].dynamic,
        forall|i: int| 0 <= i < old(mmu).spaces@.len() && i != old(mmu).space_index(pud)
            ==> final(mmu).spaces@[i] == old(mmu).spaces@[i],
        forall|k: int| 0 <= k < pages ==> !#[trigger] final(mmu).mapped(pud, (vaddr + k * 4096) as u64),
        forall|va2: u64| #[trigger] final(mmu).entry_at(pud, va2) == old(mmu).entry_at(pud, va2)
            || (final(mmu).entry_at(pud, va2) == 0 && exists|k: int|
            0 <= k < pages && vpn_of(va2) == #[trigger] vpn_of((vaddr + k * 4096) as u64)),
        forall|j: int| final(pmm).allocated(j) ==> old(pmm).allocated(j),
        !old(mmu).space_at(pud).dynamic ==> final(pmm).bitmap@ == old(pmm).bitmap@,
        forall|k: int| #![trigger old(mmu).entry_at(pud, (vaddr + k * 4096) as u64)]
            0 <= k < pages && old(mmu).space_at(pud).dynamic
            && old(mmu).entry_at(pud, (vaddr + k * 4096) as u64) != 0 ==> !final(pmm).allocated(
            old(pmm).page_index(oa_of(old(mmu).entry_at(pud, (vaddr + k * 4096) as u64))),
        ),
    {
    let i = match mmu.find_space(pud) {
        Some(i) => i,
        None => {
            proof {
                assert(false);
            }
            0
        },
    };
    proof {
        lemma_space_at(*old(mmu), *old(pmm), i as int);
    }
    let ghost orig = old(mmu).spaces@[i as int];
    let mut sp = mmu.spaces.remove(i);
    let mut k: i32 = 0;
    while k < pages
        invariant
            0 <= k <= pages,
            pages <= 0x800_0000,
            vaddr + pages * 4096 <= u64::MAX,
            i < old(mmu).spaces@.len(),
            orig == old(mmu).spaces@[i as int],
            mmu.spaces@ == old(mmu).spaces@.remove(i as int),
            old(mmu).inv(*old(pmm)),
            sp.wf(),
            pmm.wf(),
            Pmm::same_shape(*old(pmm), *pmm),
            sp.owned_allocated(*pmm),
            sp.dynamic == orig.dynamic,
            sp.root.addr == orig.root.addr,
            !orig.dynamic ==> pmm.bitmap@ == old(pmm).bitmap@,
            forall|a: u64| #[trigger] sp.owns_page(a) ==> orig.owns_page(a),
            forall|j: int| pmm.allocated(j) ==> old(pmm).allocated(j),
            forall|a: u64| old(pmm).valid_page_addr(a) && !orig.owns_page(a)
                ==> pmm.allocated(old(pmm).page_index(a)) == old(pmm).allocated(
                    old(pmm).page_index(a),
                ),
            forall|j: int| 0 <= j < k ==> #[trigger] sp.entry_at((vaddr + j * 4096) as u64) == 0,
            forall|va2: u64| #[trigger] sp.entry_at(va2) == orig.entry_at(va2) || (sp.entry_at(va2)
                == 0 && exists|j: int|
                0 <= j < k && vpn_of(va2) == #[trigger] vpn_of((vaddr + j * 4096) as u64)),
            forall|m: int| #![trigger orig.entry_at((vaddr + m * 4096) as u64)] 0 <= m < k
                && orig.dynamic && orig.entry_at((vaddr + m * 4096) as u64) != 0 ==> !pmm.allocated(
                old(pmm).page_index(oa_of(orig.entry_at((vaddr + m * 4096) as u64))),
            ),
        decreases pages - k,
    {
        let va = vaddr + (k as u64) * 4096;
        let ghost sp_pre = sp;
        let ghost pmm_pre = *pmm;
        release_page(&mut sp, pmm, va);
        proof {
            assert forall|j: int| 0 <= j < k + 1 implies #[trigger] sp.entry_at(
                (vaddr + j * 4096) as u64,
            ) == 0 by {
                let vaj = (vaddr + j * 4096) as u64;
                if j < k {
                    if vpn_of(vaj) != vpn_of(va) {
                        assert(sp.entry_at(vaj) == sp_pre.entry_at(vaj));
                    } else {
                        lemma_entry_at_vpn(sp, vaj, va);
                    }
                }
            }
            assert forall|va2: u64| #[trigger] sp.entry_at(va2) == orig.entry_at(va2) || (
            sp.entry_at(va2) == 0 && exists|j: int|
                0 <= j < k + 1 && vpn_of(va2) == #[trigger] vpn_of((vaddr + j * 4096) as u64)) by {
                if vpn_of(va2) != vpn_of(va) {
                    assert(sp.entry_at(va2) == sp_pre.entry_at(va2));
                    if sp_pre.entry_at(va2) == orig.entry_at(va2) {
                    } else {
                        let j = choose|j: int|
                            0 <= j < k && vpn_of(va2) == #[trigger] vpn_of(
                                (vaddr + j * 4096) as u64,
                            );
                        assert(0 <= j < k + 1 && vpn_of(va2) == vpn_of(
                            (vaddr + j * 4096) as u64,
                        ));
                    }
                } else {
                    lemma_entry_at_vpn(sp, va2, va);
                    assert(sp.entry_at(va2) == 0);
                    assert(vpn_of(va2) == vpn_of((vaddr + k * 4096) as u64));
                }
            }
            assert forall|a: u64| old(pmm).valid_page_addr(a) && !orig.owns_page(a) implies
                pmm.allocated(old(pmm).page_index(a)) == old(pmm).allocated(
                old(pmm).page_index(a),
            ) by {
                if !sp_pre.owns_page(a) {
                } else {
                    assert(orig.owns_page(a));
                }
            }
            assert forall|m: int| #![trigger orig.entry_at((vaddr + m * 4096) as u64)]
                0 <= m < k + 1 && orig.dynamic && orig.entry_at((vaddr + m * 4096) as u64)
                != 0 implies !pmm.allocated(
                old(pmm).page_index(oa_of(orig.entry_at((vaddr + m * 4096) as u64))),
            ) by {
                let vam = (vaddr + m * 4096) as u64;
                if m < k {
                    assert(!pmm_pre.allocated(old(pmm).page_index(oa_of(orig.entry_at(vam)))));
                } else {
                    assert(vam == va);
                    if sp_pre.entry_at(va) == orig.entry_at(va) {
                        assert(!pmm.allocated(pmm_pre.page_index(oa_of(sp_pre.entry_at(va)))));
                        assert(pmm_pre.page_index(oa_of(orig.entry_at(va))) == old(
                            pmm,
                        ).page_index(oa_of(orig.entry_at(va))));
                    } else {
                        // this page number was already cleared and freed
                        // by an earlier step of the walk
                        assert(sp_pre.entry_at(va) == 0);
                        let j = choose|j: int|
                            0 <= j < k && vpn_of(va) == #[trigger] vpn_of(
                                (vaddr + j * 4096) as u64,
                            );
                        let vaj = (vaddr + j * 4096) as u64;
                        lemma_entry_at_vpn(orig, va, vaj);
                        assert(orig.entry_at(vaj) != 0);
                        assert(!pmm_pre.allocated(old(pmm).page_index(oa_of(orig.entry_at(vaj)))));
                    }
                }
            }
        }
        k = k + 1;
    }
    mmu.spaces.insert(i, sp);
    proof {
        lemma_seq_update_via_remove(old(mmu).spaces@, i as int, final(mmu).spaces@[i as int]);
        let nsp = final(mmu).spaces@[i as int];
        assert(final(mmu).inv(*final(pmm))) by {
            assert forall|j: int| 0 <= j < final(mmu).spaces@.len() implies (
            #[trigger] final(mmu).spaces@[j]).wf() by {
                if j != i {
                    assert(final(mmu).spaces@[j] == old(mmu).spaces@[j]);
                }
            }
            assert forall|j: int| 0 <= j < final(mmu).spaces@.len() implies (
            #[trigger] final(mmu).spaces@[j]).owned_allocated(*final(pmm)) by {
                if j != i {
                    let spj = old(mmu).spaces@[j];
                    assert(spj == final(mmu).spaces@[j]);
                    assert forall|a: u64| #[trigger] spj.owns_page(a) implies final(pmm).valid_page_addr(a) && final(pmm).allocated(final(pmm).page_index(a)) by {
                        assert(old(pmm).allocated(old(pmm).page_index(a)));
                        assert(spj.disjoint_from(orig) || j == i);
                        assert(old(mmu).spaces@[j].disjoint_from(old(mmu).spaces@[i as int]));
                        assert(!orig.owns_page(a));
                    }
                }
            }
            assert forall|j: int, k2: int|
                0 <= j < final(mmu).spaces@.len() && 0 <= k2 < final(mmu).spaces@.len() && j
                    != k2 implies (#[trigger] final(mmu).spaces@[j]).disjoint_from(
                #[trigger] final(mmu).spaces@[k2]) by {
                if j != i && k2 != i {
                    assert(final(mmu).spaces@[j] == old(mmu).spaces@[j]);
                    assert(final(mmu).spaces@[k2] == old(mmu).spaces@[k2]);
                    assert(old(mmu).spaces@[j].disjoint_from(old(mmu).spaces@[k2]));
                } else if j == i {
                    let spk = old(mmu).spaces@[k2];
                    assert(old(mmu).spaces@[i as int].disjoint_from(spk));
                    assert forall|a: u64| !(#[trigger] nsp.owns_page(a) && #[trigger] spk.owns_page(
                        a,
                    )) by {
                        if nsp.owns_page(a) {
                            assert(orig.owns_page(a));
                        }
                    }
                } else {
                    let spj = old(mmu).spaces@[j];
                    assert(old(mmu).spaces@[i as int].disjoint_from(spj));
                    assert forall|a: u64| !(#[trigger] spj.owns_page(a) && #[trigger] nsp.owns_page(
                        a,
                    )) by {
                        if nsp.owns_page(a) {
                            assert(orig.owns_page(a));
                        }
                    }
                }
            }
        };
        lemma_space_at(*final(mmu), *final(pmm), i as int);
        assert(final(mmu).space_at(pud) == nsp);
    }
    0
}


/// Bounds of one image segment.
pub struct MemoryRegion {
    pub start: u64,
    pub stop: u64,
}

/// Where the firmware's code, read-only data and mutable data lie.
pub struct ImageMap {
    pub text: MemoryRegion,
    pub rodata: MemoryRegion,
    pub data: MemoryRegion,
}

/// Protection for an identity-mapped image page: code stays executable
/// and readable at both levels, read-only data readable (with a shared
/// fallback for the unprivileged allocator's globals), mutable data
/// privileged-only; anything else takes `default`.
pub open spec fn spec_image_prot(map: ImageMap, addr: u64, default: u64) -> u64 {
    if map.text.start <= addr <= map.text.stop {
        AP_RO | AP_EL0
    } else if map.rodata.start <= addr <= map.rodata.stop {
        AP_RO | MMU_UXN | MMU_PXN | AP_EL0
    } else if map.data.start <= addr <= map.data.stop {
        AP_RW | MMU_UXN | MMU_PXN
    } else {
        default
    }
}

pub fn mmu_image_prot(map: &ImageMap, addr: u64, default: u64) -> (r: u64)
    ensures
        r == spec_image_prot(*map, addr, default),
{
    if addr >= map.text.start && addr <= map.text.stop {
        AP_RO | AP_EL0
    } else if addr >= map.rodata.start && addr <= map.rodata.stop {
        AP_RO | MMU_UXN | MMU_PXN | AP_EL0
    } else if addr >= map.data.start && addr <= map.data.stop {
        AP_RW | MMU_UXN | MMU_PXN
    } else {
        default
    }
}

/// Map the given physical page `pa` at `va` in the boot space rooted
/// at `pud`. Nonzero means the allocator ran out of table pages.
pub fn map_fixed(mmu: &mut Mmu, pmm: &mut Pmm, ram: &mut Ram, pud: u64, va: u64, pa: u64, prot: u64)
    -> (r: i32)
    requires
        old(mmu).inv(*old(pmm)),
        old(ram).wf(),
        old(pmm).within(*old(ram)),
        old(mmu).has_root(pud),
        !old(mmu).space_at(pud).dynamic,
        !old(mmu).mapped(pud, va),
        pa != 0,
        oa_clean(pa),
        prot & OA_MASK == 0,
        prot & (MMU_ENTRY_NEXT_TBL | MMU_ENTRY_NEXT_PAGE) == 0,
    ensures
        final(mmu).inv(*final(pmm)),
        final(ram).wf(),
        final(pmm).within(*final(ram)),
        Pmm::same_shape(*old(pmm), *final(pmm)),
        final(ram).start == old(ram).start,
        final(ram).bytes@.len() == old(ram).bytes@.len(),
        final(mmu).linear == old(mmu).linear,
        final(mmu).ttbr == old(mmu).ttbr,
        final(mmu).spaces@.len() == old(mmu).spaces@.len(),
        forall|i: int| 0 <= i < old(mmu).spaces@.len()
            ==> (#[trigger] final(mmu).spaces@[i]).root.addr == old(mmu).spaces@[i].root.addr
                && final(mmu).spaces@[i].dynamic == old(mmu).spaces@[i].dynamic,
        forall|i: int| 0 <= i < old(mmu).spaces@.len() && i != old(mmu).space_index(pud)
            ==> final(mmu).spaces@[i] == old(mmu).spaces@[i],
        forall|j: int| old(pmm).allocated(j) ==> final(pmm).allocated(j),
        r == 0 ==> final(mmu).entry_at(pud, va) == (pa | prot | MMU_ENTRY_NEXT_PAGE),
        r == 0 ==> final(mmu).translate(pud, va) == pa,
        forall|va2: u64| vpn_of(va2) != vpn_of(va)
            ==> final(mmu).entry_at(pud, va2) == old(mmu).entry_at(pud, va2),
        r != 0 ==> forall|va2: u64| final(mmu).entry_at(pud, va2) == old(mmu).entry_at(pud, va2),
        r != 0 ==> final(pmm).all_allocated(),
        forall|b: int| old(ram).start <= b < old(ram).end()
            && (b < old(pmm).startmem || b >= old(pmm).startmem + old(pmm).npages() * 4096
            || old(pmm).allocated((b - old(pmm).startmem) / 4096))
            ==> final(ram).byte_at(b) == old(ram).byte_at(b),
{
    let i = match mmu.find_space(pud) {
        Some(i) => i,
        None => {
            proof {
                assert(false);
            }
            0
        },
    };
    proof {
        lemma_space_at(*old(mmu), *old(pmm), i as int);
    }
    let ghost pmm0 = *pmm;
    let mut sp = mmu.spaces.remove(i);
    let ok = sp.map_page(pmm, ram, va, pa, prot);
    mmu.spaces.insert(i, sp);
    proof {
        lemma_seq_update_via_remove(old(mmu).spaces@, i as int, final(mmu).spaces@[i as int]);
        let nsp = final(mmu).spaces@[i as int];
        let osp = old(mmu).spaces@[i as int];
        assert(final(mmu).inv(*final(pmm))) by {
            assert forall|j: int| 0 <= j < final(mmu).spaces@.len() implies (
            #[trigger] final(mmu).spaces@[j]).wf() by {
                if j != i {
                    assert(final(mmu).spaces@[j] == old(mmu).spaces@[j]);
                }
            }
            assert forall|j: int| 0 <= j < final(mmu).spaces@.len() implies (
            #[trigger] final(mmu).spaces@[j]).owned_allocated(*final(pmm)) by {
                if j != i {
                    let spj = old(mmu).spaces@[j];
                    assert(spj == final(mmu).spaces@[j]);
                    assert forall|a: u64| #[trigger] spj.owns_page(a) implies final(pmm).valid_page_addr(a) && final(pmm).allocated(final(pmm).page_index(a)) by {
                        assert(old(pmm).allocated(old(pmm).page_index(a)));
                    }
                }
            }
            assert forall|j: int, k: int|
                0 <= j < final(mmu).spaces@.len() && 0 <= k < final(mmu).spaces@.len() && j
                    != k implies (#[trigger] final(mmu).spaces@[j]).disjoint_from(
                #[trigger] final(mmu).spaces@[k]) by {
                if j != i && k != i {
                    assert(final(mmu).spaces@[j] == old(mmu).spaces@[j]);
                    assert(final(mmu).spaces@[k] == old(mmu).spaces@[k]);
                    assert(old(mmu).spaces@[j].disjoint_from(old(mmu).spaces@[k]));
                } else if j == i {
                    let spk = old(mmu).spaces@[k];
                    assert forall|a: u64| !(#[trigger] nsp.owns_page(a) && #[trigger] spk.owns_page(
                        a,
                    )) by {
                        if nsp.owns_page(a) && spk.owns_page(a) {
                            assert(spk.owns_page(a) ==> pmm0.allocated(pmm0.page_index(a)));
                            if osp.owns_page(a) {
                                assert(osp.disjoint_from(spk));
                                assert(false);
                            } else {
                                assert(!pmm0.allocated(pmm0.page_index(a)));
                                assert(false);
                            }
                        }
                    }
                } else {
                    let spj = old(mmu).spaces@[j];
                    assert forall|a: u64| !(#[trigger] spj.owns_page(a) && #[trigger] nsp.owns_page(
                        a,
                    )) by {
                        if spj.owns_page(a) && nsp.owns_page(a) {
                            assert(spj.owns_page(a) ==> pmm0.allocated(pmm0.page_index(a)));
                            if osp.owns_page(a) {
                                assert(osp.disjoint_from(spj));
                                assert(false);
                            } else {
                                assert(!pmm0.allocated(pmm0.page_index(a)));
                                assert(false);
                            }
                        }
                    }
                }
            }
        };
        lemma_space_at(*final(mmu), *final(pmm), i as int);
        assert(final(mmu).space_at(pud) == nsp);
        if ok {
            lemma_leaf_fields(pa, prot);
        }
    }
    if ok {
        0
    } else {
        -1
    }
}


/// The full-range allocation: check the whole run is unmapped, then
/// back every page with a fresh zeroed frame. An already-mapped run is
/// a caller bug and fails loudly without touching the tables. Failing
/// mid-run means the allocator is dry; the mapped prefix stays and can
/// be released through the ordinary unmapping path. The wrap guard on
/// `vaddr + pages * 4096` keeps the very top page of the address space
/// out of reach, as the end-exclusive range bound cannot name it.
#[verifier::rlimit(100)]
pub fn alloc_pages(mmu: &mut Mmu, pmm: &mut Pmm, ram: &mut Ram, pud: u64, vaddr: u64, pages: i32,
    prot: u64) -> (r: i32)
    requires
        old(mmu).inv(*old(pmm)),
        old(ram).wf(),
        old(pmm).within(*old(ram)),
        old(mmu).has_root(pud),
        0 <= pages <= 0x800_0000,
        vaddr + pages * 4096 <= u64::MAX,
        prot & OA_MASK == 0,
        prot & (MMU_ENTRY_NEXT_TBL | MMU_ENTRY_NEXT_PAGE) == 0,
    ensures
        final(mmu).inv(*final(pmm)),
        final(ram).wf(),
        final(pmm).within(*final(ram)),
        Pmm::same_shape(*old(pmm), *final(pmm)),
        final(mmu).linear == old(mmu).linear,
        final(mmu).ttbr == old(mmu).ttbr,
        final(mmu).spaces@.len() == old(mmu).spaces@.len(),
        forall|i: int| 0 <= i < old(mmu).spaces@.len()
            ==> (#[trigger] final(mmu).spaces@[i]).root.addr == old(mmu).spaces@[i].root.addr
                && final(mmu).spaces@[i].dynamic == old(mmu).spaces@[i].dynamic,
        forall|i: int| 0 <= i < old(mmu).spaces@.len() && i != old(mmu).space_index(pud)
            ==> final(mmu).spaces@[i] == old(mmu).spaces@[i],
        r == i32::MIN ==> final(mmu).spaces@ == old(mmu).spaces@ && final(pmm).bitmap@ == old(
            pmm,
        ).bitmap@ && !(forall|k: int| 0 <= k < pages
            ==> !#[trigger] old(mmu).mapped(pud, (vaddr + k * 4096) as u64)),
        !(forall|k: int| 0 <= k < pages
            ==> !#[trigger] old(mmu).mapped(pud, (vaddr + k * 4096) as u64)) ==> r == i32::MIN,
        r != 0 && r != i32::MIN ==> r == -1 && final(pmm).all_allocated(),
        r == 0 ==> forall|k: int| 0 <= k < pages
            ==> !#[trigger] old(mmu).mapped(pud, (vaddr + k * 4096) as u64),
        r == 0 ==> forall|k: int| #![trigger final(mmu).translate(pud, (vaddr + k * 4096) as u64)]
            0 <= k < pages ==> {
            let p = final(mmu).translate(pud, (vaddr + k * 4096) as u64);
            &&& p != u64::MAX
            &&& p != 0
            &&& final(mmu).entry_at(pud, (vaddr + k * 4096) as u64) == (p | prot
                | MMU_ENTRY_NEXT_PAGE)
            &&& old(pmm).valid_page_addr(p)
            &&& !old(pmm).allocated(old(pmm).page_index(p))
            &&& final(pmm).allocated(old(pmm).page_index(p))
            &&& forall|b: int| p <= b < p + 4096 ==> final(ram).byte_at(b) == 0
        },
        r == 0 ==> forall|j: int| old(pmm).allocated(j) ==> final(pmm).allocated(j),
        forall|va2: u64| #[trigger] final(mmu).entry_at(pud, va2) == old(mmu).entry_at(pud, va2)
            || (exists|k: int|
            0 <= k < pages && vpn_of(va2) == #[trigger] vpn_of((vaddr + k * 4096) as u64)),
        r == i32::MIN ==> forall|va2: u64| final(mmu).entry_at(pud, va2) == old(mmu).entry_at(
            pud,
            va2,
        ),
        forall|b: int| old(ram).start <= b < old(ram).end()
            && (b < old(pmm).startmem || b >= old(pmm).startmem + old(pmm).npages() * 4096
            || old(pmm).allocated((b - old(pmm).startmem) / 4096))
            ==> final(ram).byte_at(b) == old(ram).byte_at(b),
{
    let avail = pages_available(mmu, pmm, pud, vaddr, pages);
    if avail != pages {
        proof {
            assert(old(mmu).mapped(pud, (vaddr + (avail as int) * 4096) as u64));
        }
        return i32::MIN;
    }
    proof {
        assert forall|k: int| 0 <= k < pages implies !#[trigger] old(mmu).mapped(
            pud,
            (vaddr + k * 4096) as u64,
        ) by {}
    }
    let mut k: i32 = 0;
    while k < pages
        invariant
            0 <= k <= pages,
            pages <= 0x800_0000,
            vaddr + pages * 4096 <= u64::MAX,
            prot & OA_MASK == 0,
            prot & (MMU_ENTRY_NEXT_TBL | MMU_ENTRY_NEXT_PAGE) == 0,
            mmu.inv(*pmm),
            ram.wf(),
            pmm.within(*ram),
            Pmm::same_shape(*old(pmm), *pmm),
            ram.start == old(ram).start,
            ram.bytes@.len() == old(ram).bytes@.len(),
            mmu.linear == old(mmu).linear,
            mmu.ttbr == old(mmu).ttbr,
            mmu.has_root(pud),
            mmu.spaces@.len() == old(mmu).spaces@.len(),
            forall|i: int| 0 <= i < old(mmu).spaces@.len()
                ==> (#[trigger] mmu.spaces@[i]).root.addr == old(mmu).spaces@[i].root.addr
                    && mmu.spaces@[i].dynamic == old(mmu).spaces@[i].dynamic,
            forall|i: int| 0 <= i < old(mmu).spaces@.len() && i != old(mmu).space_index(pud)
                ==> mmu.spaces@[i] == old(mmu).spaces@[i],
            forall|j: int| old(pmm).allocated(j) ==> pmm.allocated(j),
            forall|m: int| 0 <= m < pages
                ==> !#[trigger] old(mmu).mapped(pud, (vaddr + m * 4096) as u64),
            forall|m: int| #![trigger mmu.translate(pud, (vaddr + m * 4096) as u64)] 0 <= m < k
                ==> {
                let p = mmu.translate(pud, (vaddr + m * 4096) as u64);
                &&& p != u64::MAX
                &&& p != 0
                &&& mmu.entry_at(pud, (vaddr + m * 4096) as u64) == (p | prot
                    | MMU_ENTRY_NEXT_PAGE)
                &&& old(pmm).valid_page_addr(p)
                &&& !old(pmm).allocated(old(pmm).page_index(p))
                &&& pmm.allocated(old(pmm).page_index(p))
                &&& forall|b: int| p <= b < p + 4096 ==> ram.byte_at(b) == 0
            },
            forall|va2: u64| #[trigger] mmu.entry_at(pud, va2) == old(mmu).entry_at(pud, va2) || (
            exists|m: int|
                0 <= m < k && vpn_of(va2) == #[trigger] vpn_of((vaddr + m * 4096) as u64)),
            forall|b: int| old(ram).start <= b < old(ram).end()
                && (b < old(pmm).startmem || b >= old(pmm).startmem + old(pmm).npages() * 4096
                || old(pmm).allocated((b - old(pmm).startmem) / 4096))
                ==> ram.byte_at(b) == old(ram).byte_at(b),
        decreases pages - k,
    {
        let va = vaddr + (k as u64) * 4096;
        proof {
            assert(!mmu.mapped(pud, va)) by {
                if mmu.entry_at(pud, va) == old(mmu).entry_at(pud, va) {
                    assert(!old(mmu).mapped(pud, (vaddr + (k as int) * 4096) as u64));
                } else {
                    let m = choose|m: int|
                        0 <= m < k && vpn_of(va) == #[trigger] vpn_of((vaddr + m * 4096) as u64);
                    lemma_vpn_distinct((vaddr + m * 4096) as u64, ((k - m) * 4096) as u64);
                    assert(false);
                }
            };
        }
        let ghost pmm_pre = *pmm;
        let ghost mmu_pre = *mmu;
        let ghost ram_pre = *ram;
        let r = alloc_page(mmu, pmm, ram, pud, va, prot);
        if r != 0 {
            proof {
                let i0 = old(mmu).space_index(pud);
                assert(0 <= i0 < old(mmu).spaces@.len() && old(mmu).spaces@[i0].root.addr == pud);
                assert(mmu_pre.spaces@[i0].root.addr == pud);
                lemma_space_at(mmu_pre, pmm_pre, i0);
                assert forall|j: int| 0 <= j < old(mmu).spaces@.len() && j != i0 implies
                    final(mmu).spaces@[j] == old(mmu).spaces@[j] by {
                    assert(mmu_pre.spaces@[j] == old(mmu).spaces@[j]);
                    assert(mmu.spaces@[j] == mmu_pre.spaces@[j]);
                }
            }
            return -1;
        }
        proof {
            let vak = (vaddr + (k as int) * 4096) as u64;
            assert(va == vak);
            assert forall|m: int| #![trigger mmu.translate(pud, (vaddr + m * 4096) as u64)]
                0 <= m < k + 1 implies {
                let p = mmu.translate(pud, (vaddr + m * 4096) as u64);
                &&& p != u64::MAX
                &&& p != 0
                &&& mmu.entry_at(pud, (vaddr + m * 4096) as u64) == (p | prot
                    | MMU_ENTRY_NEXT_PAGE)
                &&& old(pmm).valid_page_addr(p)
                &&& !old(pmm).allocated(old(pmm).page_index(p))
                &&& pmm.allocated(old(pmm).page_index(p))
                &&& forall|b: int| p <= b < p + 4096 ==> ram.byte_at(b) == 0
            } by {
                let vam = (vaddr + m * 4096) as u64;
                if m < k {
                    assert(vpn_of(vam) != vpn_of(va)) by {
                        lemma_vpn_distinct(vam, ((k - m) * 4096) as u64);
                    };
                    assert(mmu.entry_at(pud, vam) == mmu_pre.entry_at(pud, vam));
                    let p = mmu_pre.translate(pud, vam);
                    assert(pmm_pre.allocated(old(pmm).page_index(p)));
                    assert(pmm.allocated(old(pmm).page_index(p)));
                    assert(pmm_pre.valid_page_addr(p)) by {
                        assert(old(pmm).valid_page_addr(p));
                    };
                    assert forall|b: int| p <= b < p + 4096 implies ram.byte_at(b) == 0 by {
                        assert(ram_pre.byte_at(b) == 0);
                        assert(pmm_pre.allocated((b - pmm_pre.startmem) / 4096)) by {
                            lemma_fundamental_div_mod((p - pmm_pre.startmem) as int, 4096);
                            lemma_page_addr_bound(pmm_pre, p);
                            assert((b - pmm_pre.startmem) / 4096 == pmm_pre.page_index(p)) by {
                                lemma_fundamental_div_mod_converse(
                                    b - pmm_pre.startmem,
                                    4096,
                                    pmm_pre.page_index(p),
                                    b - p,
                                );
                            };
                        };
                        assert(pmm_pre.startmem <= b < pmm_pre.startmem + pmm_pre.npages() * 4096)
                            by {
                            lemma_page_addr_bound(pmm_pre, p);
                            assert(4096 * (pmm_pre.page_index(p) + 1) <= 4096 * pmm_pre.npages())
                                by (nonlinear_arith)
                                requires
                                    pmm_pre.page_index(p) < pmm_pre.npages(),
                            ;
                            assert(4096 * pmm_pre.npages() == pmm_pre.npages() * 4096)
                                by (nonlinear_arith);
                            lemma_fundamental_div_mod((p - pmm_pre.startmem) as int, 4096);
                        };
                    }
                } else {
                    let p = mmu.translate(pud, va);
                    assert(!pmm_pre.allocated(pmm_pre.page_index(p)));
                    assert(!old(pmm).allocated(old(pmm).page_index(p)));
                }
            }
            assert forall|va2: u64| #[trigger] mmu.entry_at(pud, va2) == old(mmu).entry_at(
                pud,
                va2,
            ) || (exists|m: int|
                0 <= m < k + 1 && vpn_of(va2) == #[trigger] vpn_of(
                    (vaddr + m * 4096) as u64,
                )) by {
                if vpn_of(va2) == vpn_of(va) {
                    let ki = k as int;
                    assert(0 <= ki < k + 1 && vpn_of(va2) == vpn_of(
                        (vaddr + ki * 4096) as u64,
                    ));
                } else {
                    assert(mmu.entry_at(pud, va2) == mmu_pre.entry_at(pud, va2));
                    if mmu_pre.entry_at(pud, va2) == old(mmu).entry_at(pud, va2) {
                    } else {
                        let m = choose|m: int|
                            0 <= m < k && vpn_of(va2) == #[trigger] vpn_of(
                                (vaddr + m * 4096) as u64,
                            );
                        assert(0 <= m < k + 1 && vpn_of(va2) == vpn_of((vaddr + m * 4096) as u64));
                    }
                }
            }
            let i0 = old(mmu).space_index(pud);
            assert(0 <= i0 < old(mmu).spaces@.len() && old(mmu).spaces@[i0].root.addr == pud);
            assert(mmu_pre.spaces@[i0].root.addr == pud);
            lemma_space_at(mmu_pre, pmm_pre, i0);
            assert(mmu_pre.space_index(pud) == i0);
            assert(mmu.has_root(pud)) by {
                assert(mmu.spaces@[i0].root.addr == pud);
            };
            assert forall|j: int| 0 <= j < old(mmu).spaces@.len() && j != i0 implies
                mmu.spaces@[j] == old(mmu).spaces@[j] by {
                assert(mmu_pre.spaces@[j] == old(mmu).spaces@[j]);
                assert(mmu.spaces@[j] == mmu_pre.spaces@[j]);
            }
        }
        k = k + 1;
    }
    0
}


/// Map the physical range `[start, stop)` at `startvaddr` in the boot
/// space, page by page under one protection.
pub fn map_region(mmu: &mut Mmu, pmm: &mut Pmm, ram: &mut Ram, pud: u64, startvaddr: u64,
    start: u64, stop: u64, prot: u64) -> (r: i32)
    requires
        old(mmu).inv(*old(pmm)),
        old(ram).wf(),
        old(pmm).within(*old(ram)),
        old(mmu).has_root(pud),
        !old(mmu).space_at(pud).dynamic,
        start % 4096 == 0,
        stop % 4096 == 0,
        0 < start <= stop,
        stop <= 0x80_0000_0000,
        startvaddr % 4096 == 0,
        startvaddr + (stop - start) <= u64::MAX,
        prot & OA_MASK == 0,
        prot & (MMU_ENTRY_NEXT_TBL | MMU_ENTRY_NEXT_PAGE) == 0,
        forall|k: int| 0 <= k < (stop - start) / 4096
            ==> !#[trigger] old(mmu).mapped(pud, (startvaddr + k * 4096) as u64),
    ensures
        final(mmu).inv(*final(pmm)),
        final(ram).wf(),
        final(pmm).within(*final(ram)),
        Pmm::same_shape(*old(pmm), *final(pmm)),
        final(ram).start == old(ram).start,
        final(ram).bytes@.len() == old(ram).bytes@.len(),
        final(mmu).linear == old(mmu).linear,
        final(mmu).ttbr == old(mmu).ttbr,
        final(mmu).spaces@.len() == old(mmu).spaces@.len(),
        forall|i: int| 0 <= i < old(mmu).spaces@.len()
            ==> (#[trigger] final(mmu).spaces@[i]).root.addr == old(mmu).spaces@[i].root.addr
                && final(mmu).spaces@[i].dynamic == old(mmu).spaces@[i].dynamic,
        forall|i: int| 0 <= i < old(mmu).spaces@.len() && i != old(mmu).space_index(pud)
            ==> final(mmu).spaces@[i] == old(mmu).spaces@[i],
        forall|j: int| old(pmm).allocated(j) ==> final(pmm).allocated(j),
        r == 0 ==> forall|k: int| #![trigger final(mmu).entry_at(pud, (startvaddr + k * 4096) as u64)]
            0 <= k < (stop - start) / 4096
            ==> final(mmu).entry_at(pud, (startvaddr + k * 4096) as u64) == (((start + k * 4096) as u64)
                | prot | MMU_ENTRY_NEXT_PAGE),
        r != 0 ==> final(pmm).all_allocated(),
        forall|va2: u64| #[trigger] final(mmu).entry_at(pud, va2) == old(mmu).entry_at(pud, va2)
            || (exists|k: int| 0 <= k < (stop - start) / 4096 && vpn_of(va2) == #[trigger] vpn_of(
            (startvaddr + k * 4096) as u64)),
        forall|b: int| old(ram).start <= b < old(ram).end()
            && (b < old(pmm).startmem || b >= old(pmm).startmem + old(pmm).npages() * 4096
            || old(pmm).allocated((b - old(pmm).startmem) / 4096))
            ==> final(ram).byte_at(b) == old(ram).byte_at(b),
{
    let pages = (stop - start) / 4096;
    proof {
        lemma_fundamental_div_mod((stop - start) as int, 4096);
        assert((stop - start) % 4096 == 0) by (nonlinear_arith)
            requires
                start % 4096 == 0 && stop % 4096 == 0 && start <= stop,
        ;
    }
    let mut k: u64 = 0;
    while k < pages
        invariant
            0 <= k <= pages,
            pages == (stop - start) / 4096,
            stop - start == pages * 4096,
            start % 4096 == 0,
            0 < start <= stop <= 0x80_0000_0000,
            startvaddr % 4096 == 0,
            startvaddr + (stop - start) <= u64::MAX,
            prot & OA_MASK == 0,
            prot & (MMU_ENTRY_NEXT_TBL | MMU_ENTRY_NEXT_PAGE) == 0,
            mmu.inv(*pmm),
            ram.wf(),
            pmm.within(*ram),
            Pmm::same_shape(*old(pmm), *pmm),
            ram.start == old(ram).start,
            ram.bytes@.len() == old(ram).bytes@.len(),
            mmu.linear == old(mmu).linear,
            mmu.ttbr == old(mmu).ttbr,
            mmu.has_root(pud),
            !mmu.space_at(pud).dynamic,
            mmu.spaces@.len() == old(mmu).spaces@.len(),
            forall|i: int| 0 <= i < old(mmu).spaces@.len()
                ==> (#[trigger] mmu.spaces@[i]).root.addr == old(mmu).spaces@[i].root.addr
                    && mmu.spaces@[i].dynamic == old(mmu).spaces@[i].dynamic,
            forall|i: int| 0 <= i < old(mmu).spaces@.len() && i != old(mmu).space_index(pud)
                ==> mmu.spaces@[i] == old(mmu).spaces@[i],
            forall|j: int| old(pmm).allocated(j) ==> pmm.allocated(j),
            forall|m: int| 0 <= m < pages
                ==> !#[trigger] old(mmu).mapped(pud, (startvaddr + m * 4096) as u64),
            forall|m: int| #![trigger mmu.entry_at(pud, (startvaddr + m * 4096) as u64)] 0 <= m < k
                ==> mmu.entry_at(pud, (startvaddr + m * 4096) as u64) == (((start + m * 4096) as u64)
                    | prot | MMU_ENTRY_NEXT_PAGE),
            forall|va2: u64| #[trigger] mmu.entry_at(pud, va2) == old(mmu).entry_at(pud, va2) || (
            exists|m: int|
                0 <= m < k && vpn_of(va2) == #[trigger] vpn_of((startvaddr + m * 4096) as u64)),
            forall|b: int| old(ram).start <= b < old(ram).end()
                && (b < old(pmm).startmem || b >= old(pmm).startmem + old(pmm).npages() * 4096
                || old(pmm).allocated((b - old(pmm).startmem) / 4096))
                ==> ram.byte_at(b) == old(ram).byte_at(b),
        decreases pages - k,
    {
        let va = startvaddr + k * 4096;
        let pa = start + k * 4096;
        proof {
            assert(pages * 4096 <= 0x80_0000_0000) by (nonlinear_arith)
                requires
                    pages * 4096 == stop - start && stop <= 0x80_0000_0000 && start > 0,
            ;
            assert(k * 4096 < pages * 4096 || k == pages) by (nonlinear_arith)
                requires
                    k < pages,
            ;
            assert(pa % 4096 == 0 && pa != 0) by (nonlinear_arith)
                requires
                    start % 4096 == 0 && pa == start + k * 4096 && start > 0,
            ;
            lemma_page_oa_clean(pa);
            assert(!mmu.mapped(pud, va)) by {
                let ki = k as int;
                if mmu.entry_at(pud, va) == old(mmu).entry_at(pud, va) {
                    assert(!old(mmu).mapped(pud, (startvaddr + ki * 4096) as u64));
                } else {
                    let m = choose|m: int|
                        0 <= m < k && vpn_of(va) == #[trigger] vpn_of(
                            (startvaddr + m * 4096) as u64,
                        );
                    lemma_vpn_distinct((startvaddr + m * 4096) as u64, ((ki - m) * 4096) as u64);
                    assert(false);
                }
            };
        }
        let ghost mmu_pre = *mmu;
        let ghost pmm_pre = *pmm;
        let r = map_fixed(mmu, pmm, ram, pud, va, pa, prot);
        proof {
            let i0 = old(mmu).space_index(pud);
            assert(0 <= i0 < old(mmu).spaces@.len() && old(mmu).spaces@[i0].root.addr == pud);
            assert(mmu_pre.spaces@[i0].root.addr == pud);
            lemma_space_at(mmu_pre, pmm_pre, i0);
            assert(mmu_pre.space_index(pud) == i0);
            assert(mmu.has_root(pud)) by {
                assert(mmu.spaces@[i0].root.addr == pud);
            };
            lemma_space_at(*mmu, *pmm, i0);
            assert(!mmu.space_at(pud).dynamic);
            assert forall|j: int| 0 <= j < old(mmu).spaces@.len() && j != i0 implies
                mmu.spaces@[j] == old(mmu).spaces@[j] by {
                assert(mmu_pre.spaces@[j] == old(mmu).spaces@[j]);
                assert(mmu.spaces@[j] == mmu_pre.spaces@[j]);
            }
        }
        if r != 0 {
            return -1;
        }
        proof {
            let ki = k as int;
            assert forall|m: int| #![trigger mmu.entry_at(pud, (startvaddr + m * 4096) as u64)]
                0 <= m < k + 1 implies mmu.entry_at(pud, (startvaddr + m * 4096) as u64) == ((((
            start + m * 4096) as u64)) | prot | MMU_ENTRY_NEXT_PAGE) by {
                let vam = (startvaddr + m * 4096) as u64;
                if m < k {
                    assert(vpn_of(vam) != vpn_of(va)) by {
                        lemma_vpn_distinct(vam, ((ki - m) * 4096) as u64);
                    };
                    assert(mmu.entry_at(pud, vam) == mmu_pre.entry_at(pud, vam));
                } else {
                    assert(vam == va);
                }
            }
            assert forall|va2: u64| #[trigger] mmu.entry_at(pud, va2) == old(mmu).entry_at(
                pud,
                va2,
            ) || (exists|m: int|
                0 <= m < k + 1 && vpn_of(va2) == #[trigger] vpn_of(
                    (startvaddr + m * 4096) as u64,
                )) by {
                if vpn_of(va2) == vpn_of(va) {
                    assert(0 <= ki < k + 1 && vpn_of(va2) == vpn_of(
                        (startvaddr + ki * 4096) as u64,
                    ));
                } else {
                    assert(mmu.entry_at(pud, va2) == mmu_pre.entry_at(pud, va2));
                    if mmu_pre.entry_at(pud, va2) == old(mmu).entry_at(pud, va2) {
                    } else {
                        let m = choose|m: int|
                            0 <= m < k && vpn_of(va2) == #[trigger] vpn_of(
                                (startvaddr + m * 4096) as u64,
                            );
                        assert(0 <= m < k + 1 && vpn_of(va2) == vpn_of(
                            (startvaddr + m * 4096) as u64,
                        ));
                    }
                }
            }
        }
        k = k + 1;
    }
    0
}


impl AddrSpace {
    /// The physical byte that `va` addresses through this space.
    pub open spec fn resolve(self, va: u64) -> int {
        oa_of(self.entry_at(va)) + (va % 4096)
    }
}

/// Bytes of one page share the walk of their page base.
proof fn lemma_same_page(va: u64, j: u64)
    requires
        va % 4096 + j < 4096,
    ensures
        va + j <= u64::MAX,
        vpn_of(va) == vpn_of((va + j) as u64),
        ((va + j) as u64) % 4096 == va % 4096 + j,
{
    assert(va + j <= u64::MAX && ((va >> 12) & 0x7FF_FFFF) == ((((va + j) as u64) >> 12)
        & 0x7FF_FFFF) && ((va + j) as u64) % 4096 == va % 4096 + j) by (bit_vector)
        requires
            va % 4096 + j < 4096,
    ;
}

/// Two mapped addresses of a dynamic space with different page numbers
/// sit on different physical pages.
proof fn lemma_distinct_leaves(sp: AddrSpace, x: u64, y: u64)
    requires
        sp.wf(),
        sp.dynamic,
        sp.mapped(x),
        sp.mapped(y),
        vpn_of(x) != vpn_of(y),
    ensures
        oa_of(sp.entry_at(x)) != oa_of(sp.entry_at(y)),
        oa_of(sp.entry_at(x)) % 4096 == 0,
        oa_of(sp.entry_at(y)) % 4096 == 0,
{
    proof_decl_indices(x);
    proof_decl_indices(y);
    lemma_vpn_of_indices(x, y);
    let e1x = sp.root.entries@[l1_of(x)];
    let e1y = sp.root.entries@[l1_of(y)];
    let a1x = oa_of(e1x);
    let a1y = oa_of(e1y);
    let kx = choose|k: int| 0 <= k < sp.l2s@.len() && (#[trigger] sp.l2s@[k]).addr == a1x;
    let ky = choose|k: int| 0 <= k < sp.l2s@.len() && (#[trigger] sp.l2s@[k]).addr == a1y;
    lemma_tbls_at_k(sp.l2s@, kx);
    lemma_tbls_at_k(sp.l2s@, ky);
    let e2x = sp.l2s@[kx].entries@[l2_of(x)];
    let e2y = sp.l2s@[ky].entries@[l2_of(y)];
    let a2x = oa_of(e2x);
    let a2y = oa_of(e2y);
    let tx = choose|k: int| 0 <= k < sp.l3s@.len() && (#[trigger] sp.l3s@[k]).addr == a2x;
    let ty = choose|k: int| 0 <= k < sp.l3s@.len() && (#[trigger] sp.l3s@[k]).addr == a2y;
    lemma_tbls_at_k(sp.l3s@, tx);
    lemma_tbls_at_k(sp.l3s@, ty);
    assert(sp.entry_at(x) == sp.l3s@[tx].entries@[l3_of(x)]);
    assert(sp.entry_at(y) == sp.l3s@[ty].entries@[l3_of(y)]);
    // the two leaf slots differ, else all three indices would agree
    if tx == ty && l3_of(x) == l3_of(y) {
        assert(a2x == a2y);
        if kx != ky || l2_of(x) != l2_of(y) {
            assert(oa_of(sp.l2s@[kx].entries@[l2_of(x)]) != oa_of(
                sp.l2s@[ky].entries@[l2_of(y)],
            ));
            assert(false);
        }
        assert(a1x == a1y);
        if l1_of(x) != l1_of(y) {
            assert(oa_of(sp.root.entries@[l1_of(x)]) != oa_of(sp.root.entries@[l1_of(y)]));
            assert(false);
        }
        assert(false);
    }
    assert(oa_of(sp.l3s@[tx].entries@[l3_of(x)]) != oa_of(sp.l3s@[ty].entries@[l3_of(y)]));
}

/// Distinct addresses within a 39-bit window resolve to distinct bytes.
pub proof fn lemma_resolve_distinct(sp: AddrSpace, x: u64, y: u64)
    requires
        sp.wf(),
        sp.dynamic,
        sp.mapped(x),
        sp.mapped(y),
        x < y,
        y - x < 0x80_0000_0000,
    ensures
        sp.resolve(x) != sp.resolve(y),
{
    if vpn_of(x) == vpn_of(y) {
        lemma_entry_at_vpn(sp, x, y);
        assert(x % 4096 != y % 4096) by (bit_vector)
            requires
                ((x >> 12) & 0x7FF_FFFF) == ((y >> 12) & 0x7FF_FFFF) && x < y && y - x
                    < 0x80_0000_0000,
        ;
    } else {
        lemma_distinct_leaves(sp, x, y);
        let px = oa_of(sp.entry_at(x));
        let py = oa_of(sp.entry_at(y));
        assert(px + 4096 <= py || py + 4096 <= px) by (nonlinear_arith)
            requires
                px % 4096 == 0 && py % 4096 == 0 && px != py,
        ;
    }
}

/// The iterative boundary-crossing copy: move `len` bytes of normal-
/// world memory at `paddr` to the destination range at `vaddr`, one
/// physically contiguous chunk at a time.
pub fn memcpy_chunks(mmu: &Mmu, pmm: &Pmm, ram: &mut Ram, ns: &NsRam, pud: u64, vaddr: u64,
    paddr: u64, len: u64) -> (r: i32)
    requires
        mmu.inv(*pmm),
        old(ram).wf(),
        pmm.within(*old(ram)),
        ns.wf(),
        mmu.has_root(pud),
        mmu.space_at(pud).dynamic,
        vaddr + len <= u64::MAX,
        len < 0x80_0000_0000,
        ns.in_range(paddr, len),
        forall|i: int| 0 <= i < len ==> #[trigger] mmu.space_at(pud).mapped((vaddr + i) as u64),
    ensures
        r == 0,
        final(ram).wf(),
        final(ram).start == old(ram).start,
        final(ram).bytes@.len() == old(ram).bytes@.len(),
        forall|i: int| 0 <= i < len ==> #[trigger] final(ram).byte_at(
            mmu.space_at(pud).resolve((vaddr + i) as u64),
        ) == ns.byte_at(paddr + i),
        forall|b: int| old(ram).start <= b < old(ram).end() && (forall|i: int|
            0 <= i < len ==> b != #[trigger] mmu.space_at(pud).resolve((vaddr + i) as u64))
            ==> final(ram).byte_at(b) == old(ram).byte_at(b),
{
    let k = match mmu.find_space(pud) {
        Some(i) => i,
        None => {
            proof {
                assert(false);
            }
            0
        },
    };
    proof {
        lemma_space_at(*mmu, *pmm, k as int);
    }
    let ghost sp = mmu.spaces@[k as int];
    let mut pos: u64 = 0;
    while pos < len
        invariant
            pos <= len,
            len < 0x80_0000_0000,
            vaddr + len <= u64::MAX,
            mmu.inv(*pmm),
            ram.wf(),
            pmm.within(*ram),
            ns.wf(),
            ns.in_range(paddr, len),
            k < mmu.spaces@.len(),
            sp == mmu.spaces@[k as int],
            sp == mmu.space_at(pud),
            sp.wf(),
            sp.dynamic,
            sp.owned_allocated(*pmm),
            ram.start == old(ram).start,
            ram.bytes@.len() == old(ram).bytes@.len(),
            forall|i: int| 0 <= i < len ==> #[trigger] sp.mapped((vaddr + i) as u64),
            forall|i: int| 0 <= i < pos ==> #[trigger] ram.byte_at(
                sp.resolve((vaddr + i) as u64),
            ) == ns.byte_at(paddr + i),
            forall|b: int| ram.start <= b < ram.end() && (forall|i: int|
                0 <= i < pos ==> b != #[trigger] sp.resolve((vaddr + i) as u64))
                ==> ram.byte_at(b) == old(ram).byte_at(b),
        decreases len - pos,
    {
        let va = vaddr + pos;
        let off = va % 4096;
        let room = 4096 - off;
        let left = len - pos;
        let chunk: u64 = if left < room {
            left
        } else {
            room
        };
        let base = va - off;
        proof {
            assert(va % 4096 + 0 < 4096) by {
                lemma_fundamental_div_mod(va as int, 4096);
            };
            assert(base % 4096 == 0 && va == base + off && vpn_of(base) == vpn_of(va)
                && base % 4096 + off < 4096) by (bit_vector)
                requires
                    off == va % 4096 && base == va - off,
            ;
            lemma_entry_at_vpn(sp, base, va);
            assert(sp.mapped(va)) by {
                assert(sp.mapped((vaddr + pos as int) as u64));
            };
            lemma_leaf_of_entry(sp, va);
            assert(sp.owns_page(oa_of(sp.entry_at(va))));
        }
        let p = mmu.spaces[k].vaddr_to_paddr(base);
        proof {
            assert(p == oa_of(sp.entry_at(va)));
            assert(pmm.valid_page_addr(p) && pmm.allocated(pmm.page_index(p)));
            lemma_page_addr_bound(*pmm, p);
            assert(p + 4096 <= ram.end()) by {
                assert(4096 * (pmm.page_index(p) + 1) <= 4096 * pmm.npages())
                    by (nonlinear_arith)
                    requires
                        pmm.page_index(p) < pmm.npages(),
                ;
                assert(4096 * pmm.npages() == pmm.npages() * 4096) by (nonlinear_arith);
                lemma_fundamental_div_mod((p - pmm.startmem) as int, 4096);
            };
            assert forall|j: int| 0 <= j < chunk implies #[trigger] sp.resolve(
                (va + j) as u64,
            ) == p + off + j by {
                lemma_same_page(va, j as u64);
                lemma_entry_at_vpn(sp, va, (va + j) as u64);
            }
        }
        let dst = p + off;
        let ghost ram_pre = *ram;
        ram.copy_from_ns(dst, ns, paddr + pos, chunk);
        proof {
            assert forall|i: int| 0 <= i < pos + chunk implies #[trigger] ram.byte_at(
                sp.resolve((vaddr + i) as u64),
            ) == ns.byte_at(paddr + i) by {
                let vai = (vaddr + i) as u64;
                if i < pos {
                    assert(ram_pre.byte_at(sp.resolve(vai)) == ns.byte_at(paddr + i));
                    assert(sp.mapped(vai));
                    lemma_leaf_of_entry(sp, vai);
                    assert(sp.owns_page(oa_of(sp.entry_at(vai))));
                    let pi = oa_of(sp.entry_at(vai));
                    lemma_page_addr_bound(*pmm, pi);
                    assert(ram.start <= sp.resolve(vai) < ram.end()) by {
                        assert(4096 * (pmm.page_index(pi) + 1) <= 4096 * pmm.npages())
                            by (nonlinear_arith)
                            requires
                                pmm.page_index(pi) < pmm.npages(),
                        ;
                        assert(4096 * pmm.npages() == pmm.npages() * 4096) by (nonlinear_arith);
                        lemma_fundamental_div_mod((pi - pmm.startmem) as int, 4096);
                        assert(vai % 4096 < 4096) by {
                            lemma_fundamental_div_mod(vai as int, 4096);
                        };
                    };
                    assert(!(dst <= sp.resolve(vai) < dst + chunk)) by {
                        if dst <= sp.resolve(vai) < dst + chunk {
                            let j = sp.resolve(vai) - (p + off);
                            assert((va + j) as u64 == (vaddr + (pos + j)) as u64);
                            assert(sp.resolve((va + j) as u64) == p + off + j);
                            assert(sp.mapped((va + j) as u64)) by {
                                assert(sp.mapped((vaddr + (pos + j)) as u64));
                            };
                            lemma_resolve_distinct(sp, vai, (va + j) as u64);
                            assert(false);
                        }
                    };
                } else {
                    let j = i - pos;
                    assert(vai == (va + j) as u64);
                    assert(sp.resolve((va + j) as u64) == p + off + j);
                    assert(sp.resolve(vai) == p + off + j);
                    assert(ram.byte_at(dst + j) == ns.byte_at(paddr + pos + j));
                }
            }
            assert forall|b: int| ram.start <= b < ram.end() && (forall|i: int|
                0 <= i < pos + chunk ==> b != #[trigger] sp.resolve((vaddr + i) as u64)) implies
                ram.byte_at(b) == old(ram).byte_at(b) by {
                assert(!(dst <= b < dst + chunk)) by {
                    if dst <= b < dst + chunk {
                        let j = b - (p + off);
                        assert((va + j) as u64 == (vaddr + (pos + j)) as u64);
                        assert(sp.resolve((va + j) as u64) == p + off + j);
                        assert(b == sp.resolve((vaddr + (pos + j)) as u64));
                        assert(false);
                    }
                };
                assert(ram.byte_at(b) == ram_pre.byte_at(b));
                assert forall|i: int| 0 <= i < pos implies b != #[trigger] sp.resolve(
                    (vaddr + i) as u64,
                ) by {}
            }
        }
        pos = pos + chunk;
    }
    0
}


/// Allocate the page directory of a new applet address space.
pub fn alloc_pgd(mmu: &mut Mmu, pmm: &mut Pmm, ram: &mut Ram) -> (r: u64)
    requires
        old(mmu).inv(*old(pmm)),
        old(ram).wf(),
        old(pmm).within(*old(ram)),
    ensures
        final(mmu).inv(*final(pmm)),
        final(ram).wf(),
        final(pmm).within(*final(ram)),
        Pmm::same_shape(*old(pmm), *final(pmm)),
        final(ram).start == old(ram).start,
        final(ram).bytes@.len() == old(ram).bytes@.len(),
        final(mmu).linear == old(mmu).linear,
        final(mmu).ttbr == old(mmu).ttbr,
        forall|j: int| old(pmm).allocated(j) ==> final(pmm).allocated(j),
        forall|b: int| old(ram).start <= b < old(ram).end()
            && (b < old(pmm).startmem || b >= old(pmm).startmem + old(pmm).npages() * 4096
            || old(pmm).allocated((b - old(pmm).startmem) / 4096))
            ==> final(ram).byte_at(b) == old(ram).byte_at(b),
        r == u64::MAX ==> final(mmu).spaces@ == old(mmu).spaces@ && final(pmm).all_allocated(),
        r != u64::MAX ==> {
            &&& final(mmu).spaces@.len() == old(mmu).spaces@.len() + 1
            &&& forall|i: int| 0 <= i < old(mmu).spaces@.len()
                ==> final(mmu).spaces@[i] == old(mmu).spaces@[i]
            &&& final(mmu).spaces@[old(mmu).spaces@.len() as int].root.addr == r
            &&& final(mmu).spaces@[old(mmu).spaces@.len() as int].dynamic
            &&& !old(mmu).has_root(r)
            &&& final(mmu).has_root(r)
            &&& forall|va: u64| final(mmu).entry_at(r, va) == 0
            &&& !old(pmm).allocated(old(pmm).page_index(r))
            &&& old(pmm).valid_page_addr(r)
        },
{
    create_space(mmu, pmm, ram, true)
}


/// What one completed non-secure copy says: every destination byte
/// holds its source byte, and every other byte of a page the allocator
/// had already handed out is untouched.
pub open spec fn copy_post(sp: AddrSpace, pmm: Pmm, pre: crate::memory::Ram,
    post: crate::memory::Ram, ns: NsRam, vaddr: u64, paddr: u64, len: u64) -> bool {
    &&& post.start == pre.start
    &&& post.bytes@.len() == pre.bytes@.len()
    &&& forall|i: int| 0 <= i < len ==> #[trigger] post.byte_at(sp.resolve((vaddr + i) as u64))
        == ns.byte_at(paddr + i)
    &&& forall|b: int| pre.start <= b < pre.end() && pmm.startmem <= b && b < pmm.startmem
        + pmm.npages() * 4096 && pmm.allocated((b - pmm.startmem) / 4096) && (forall|i: int|
        0 <= i < len ==> b != #[trigger] sp.resolve((vaddr + i) as u64))
        ==> post.byte_at(b) == pre.byte_at(b)
}

/// Back every page overlapping `[vaddr, vaddr + len)` with memory,
/// leaving pages that are already present alone.
fn ensure_mapped_in(mmu: &mut Mmu, pmm: &mut Pmm, ram: &mut Ram, pud: u64, vaddr: u64, len: u64,
    prot: u64) -> (r: i32)
    requires
        old(mmu).inv(*old(pmm)),
        old(ram).wf(),
        old(pmm).within(*old(ram)),
        old(mmu).has_root(pud),
        len < 0x4000_0000,
        vaddr + len <= u64::MAX,
        prot & OA_MASK == 0,
        prot & (MMU_ENTRY_NEXT_TBL | MMU_ENTRY_NEXT_PAGE) == 0,
    ensures
        final(mmu).inv(*final(pmm)),
        final(ram).wf(),
        final(pmm).within(*final(ram)),
        Pmm::same_shape(*old(pmm), *final(pmm)),
        final(ram).start == old(ram).start,
        final(ram).bytes@.len() == old(ram).bytes@.len(),
        final(mmu).linear == old(mmu).linear,
        final(mmu).ttbr == old(mmu).ttbr,
        final(mmu).spaces@.len() == old(mmu).spaces@.len(),
        final(mmu).has_root(pud),
        forall|i: int| 0 <= i < old(mmu).spaces@.len()
            ==> (#[trigger] final(mmu).spaces@[i]).root.addr == old(mmu).spaces@[i].root.addr
                && final(mmu).spaces@[i].dynamic == old(mmu).spaces@[i].dynamic,
        forall|i: int| 0 <= i < old(mmu).spaces@.len() && i != old(mmu).space_index(pud)
            ==> final(mmu).spaces@[i] == old(mmu).spaces@[i],
        forall|j: int| old(pmm).allocated(j) ==> final(pmm).allocated(j),
        r == 0 ==> forall|i: int| 0 <= i < len
            ==> #[trigger] final(mmu).space_at(pud).mapped((vaddr + i) as u64),
        r == 0 ==> forall|i: int| #![trigger final(mmu).entry_at(pud, (vaddr + i) as u64)]
            0 <= i < len && !old(mmu).mapped(pud, (vaddr + i) as u64)
            ==> final(mmu).entry_at(pud, (vaddr + i) as u64) == (final(mmu).translate(
                pud,
                (vaddr + i) as u64,
            ) | prot | MMU_ENTRY_NEXT_PAGE),
        r != 0 ==> final(pmm).all_allocated(),
        forall|b: int| old(ram).start <= b < old(ram).end()
            && (b < old(pmm).startmem || b >= old(pmm).startmem + old(pmm).npages() * 4096
            || old(pmm).allocated((b - old(pmm).startmem) / 4096))
            ==> final(ram).byte_at(b) == old(ram).byte_at(b),
{
    if len == 0 {
        proof {
            let i0 = old(mmu).space_index(pud);
            lemma_space_at(*old(mmu), *old(pmm), i0);
        }
        return 0;
    }
    proof {
        lemma_pow2_4096();
    }
    let avaddr = align_pow2_down(vaddr, PAGE_SIZE);
    let pages = (len + (vaddr - avaddr) + 4095) / 4096;
    proof {
        lemma_fundamental_div_mod((len + (vaddr - avaddr) + 4095) as int, 4096);
    }
    let mut k: u64 = 0;
    while k < pages
        invariant
            0 <= k <= pages,
            pages == ((len + (vaddr - avaddr)) + 4095) / 4096,
            avaddr % 4096 == 0,
            avaddr <= vaddr < avaddr + 4096,
            len < 0x4000_0000,
            0 < len,
            vaddr + len <= u64::MAX,
            prot & OA_MASK == 0,
            prot & (MMU_ENTRY_NEXT_TBL | MMU_ENTRY_NEXT_PAGE) == 0,
            mmu.inv(*pmm),
            ram.wf(),
            pmm.within(*ram),
            Pmm::same_shape(*old(pmm), *pmm),
            ram.start == old(ram).start,
            ram.bytes@.len() == old(ram).bytes@.len(),
            mmu.linear == old(mmu).linear,
            mmu.ttbr == old(mmu).ttbr,
            mmu.has_root(pud),
            mmu.spaces@.len() == old(mmu).spaces@.len(),
            forall|i: int| 0 <= i < old(mmu).spaces@.len()
                ==> (#[trigger] mmu.spaces@[i]).root.addr == old(mmu).spaces@[i].root.addr
                    && mmu.spaces@[i].dynamic == old(mmu).spaces@[i].dynamic,
            forall|i: int| 0 <= i < old(mmu).spaces@.len() && i != old(mmu).space_index(pud)
                ==> mmu.spaces@[i] == old(mmu).spaces@[i],
            forall|j: int| old(pmm).allocated(j) ==> pmm.allocated(j),
            forall|i: int| 0 <= i < len && vaddr + i < avaddr + k * 4096
                ==> #[trigger] mmu.space_at(pud).mapped((vaddr + i) as u64),
            forall|i: int| #![trigger mmu.entry_at(pud, (vaddr + i) as u64)]
                0 <= i < len && vaddr + i < avaddr + k * 4096 && !old(mmu).mapped(
                    pud,
                    (vaddr + i) as u64,
                ) ==> mmu.entry_at(pud, (vaddr + i) as u64) == (mmu.translate(
                    pud,
                    (vaddr + i) as u64,
                ) | prot | MMU_ENTRY_NEXT_PAGE),
            forall|va2: u64| #[trigger] mmu.entry_at(pud, va2) == old(mmu).entry_at(pud, va2) || (
            exists|m: int|
                0 <= m < k && vpn_of(va2) == #[trigger] vpn_of((avaddr + m * 4096) as u64)),
            forall|b: int| old(ram).start <= b < old(ram).end()
                && (b < old(pmm).startmem || b >= old(pmm).startmem + old(pmm).npages() * 4096
                || old(pmm).allocated((b - old(pmm).startmem) / 4096))
                ==> ram.byte_at(b) == old(ram).byte_at(b),
        decreases pages - k,
    {
        let nvaddr = avaddr + k * 4096;
        let i = match mmu.find_space(pud) {
            Some(i) => i,
            None => {
                proof {
                    assert(false);
                }
                0
            },
        };
        proof {
            lemma_space_at(*mmu, *pmm, i as int);
        }
        let ghost mmu_pre = *mmu;
        let ghost pmm_pre = *pmm;
        let here = mmu.spaces[i].page_mapped(nvaddr);
        if !here {
            let r = alloc_page(mmu, pmm, ram, pud, nvaddr, prot);
            if r != 0 {
                proof {
                    let i0 = old(mmu).space_index(pud);
                    assert(mmu_pre.spaces@[i0].root.addr == pud);
                    lemma_space_at(mmu_pre, pmm_pre, i0);
                    assert(final(mmu).has_root(pud)) by {
                        assert(mmu.spaces@[i0].root.addr == pud);
                    };
                    assert forall|j: int| 0 <= j < old(mmu).spaces@.len() && j != i0 implies
                        mmu.spaces@[j] == old(mmu).spaces@[j] by {
                        assert(mmu_pre.spaces@[j] == old(mmu).spaces@[j]);
                        assert(mmu.spaces@[j] == mmu_pre.spaces@[j]);
                    }
                }
                return -1;
            }
        }
        proof {
            let i0 = old(mmu).space_index(pud);
            assert(0 <= i0 < old(mmu).spaces@.len() && old(mmu).spaces@[i0].root.addr == pud);
            assert(mmu_pre.spaces@[i0].root.addr == pud);
            lemma_space_at(mmu_pre, pmm_pre, i0);
            assert(mmu.has_root(pud)) by {
                assert(mmu.spaces@[i0].root.addr == pud);
            };
            lemma_space_at(*mmu, *pmm, i0);
            assert forall|j: int| 0 <= j < old(mmu).spaces@.len() && j != i0 implies
                mmu.spaces@[j] == old(mmu).spaces@[j] by {
                assert(mmu_pre.spaces@[j] == old(mmu).spaces@[j]);
                assert(mmu.spaces@[j] == mmu_pre.spaces@[j]);
            }
            assert(mmu.space_at(pud).mapped(nvaddr)) by {
                if here {
                } else {
                    assert(mmu.translate(pud, nvaddr) != u64::MAX);
                }
            };
            assert forall|ii: int| 0 <= ii < len && vaddr + ii < avaddr + (k + 1) * 4096 implies
                #[trigger] mmu.space_at(pud).mapped((vaddr + ii) as u64) by {
                let vai = (vaddr + ii) as u64;
                if vaddr + ii < avaddr + k * 4096 {
                    assert(mmu_pre.space_at(pud).mapped(vai));
                    if vpn_of(vai) != vpn_of(nvaddr) {
                        assert(mmu.entry_at(pud, vai) == mmu_pre.entry_at(pud, vai));
                    } else {
                        lemma_entry_at_vpn(mmu.space_at(pud), vai, nvaddr);
                    }
                } else {
                    // this byte sits on the page just handled
                    assert(vai % 4096 + 0 < 4096) by {
                        lemma_fundamental_div_mod(vai as int, 4096);
                    };
                    assert(vpn_of(vai) == vpn_of(nvaddr)) by {
                        assert(avaddr + k * 4096 <= vaddr + ii < avaddr + (k + 1) * 4096);
                        let d = (vai - nvaddr) as u64;
                        assert(nvaddr % 4096 == 0) by (nonlinear_arith)
                            requires
                                avaddr % 4096 == 0 && nvaddr == avaddr + k * 4096,
                        ;
                        lemma_same_page(nvaddr, d);
                    };
                    lemma_entry_at_vpn(mmu.space_at(pud), vai, nvaddr);
                }
            }
            // which page numbers this pass may have touched
            assert forall|va2: u64| #[trigger] mmu.entry_at(pud, va2) == old(mmu).entry_at(
                pud,
                va2,
            ) || (exists|m: int|
                0 <= m < k + 1 && vpn_of(va2) == #[trigger] vpn_of(
                    (avaddr + m * 4096) as u64,
                )) by {
                let ki = k as int;
                if here {
                    if mmu_pre.entry_at(pud, va2) == old(mmu).entry_at(pud, va2) {
                    } else {
                        let m = choose|m: int|
                            0 <= m < k && vpn_of(va2) == #[trigger] vpn_of(
                                (avaddr + m * 4096) as u64,
                            );
                        assert(0 <= m < k + 1 && vpn_of(va2) == vpn_of((avaddr + m * 4096) as u64));
                    }
                } else if vpn_of(va2) == vpn_of(nvaddr) {
                    assert(0 <= ki < k + 1 && vpn_of(va2) == vpn_of((avaddr + ki * 4096) as u64));
                } else {
                    assert(mmu.entry_at(pud, va2) == mmu_pre.entry_at(pud, va2));
                    if mmu_pre.entry_at(pud, va2) == old(mmu).entry_at(pud, va2) {
                    } else {
                        let m = choose|m: int|
                            0 <= m < k && vpn_of(va2) == #[trigger] vpn_of(
                                (avaddr + m * 4096) as u64,
                            );
                        assert(0 <= m < k + 1 && vpn_of(va2) == vpn_of((avaddr + m * 4096) as u64));
                    }
                }
            }
            // freshly backed bytes carry the requested attributes
            assert forall|ii: int| #![trigger mmu.entry_at(pud, (vaddr + ii) as u64)]
                0 <= ii < len && vaddr + ii < avaddr + (k + 1) * 4096 && !old(mmu).mapped(
                pud,
                (vaddr + ii) as u64,
            ) implies mmu.entry_at(pud, (vaddr + ii) as u64) == (mmu.translate(
                pud,
                (vaddr + ii) as u64,
            ) | prot | MMU_ENTRY_NEXT_PAGE) by {
                let vai = (vaddr + ii) as u64;
                let ki = k as int;
                if vaddr + ii < avaddr + k * 4096 {
                    assert(vpn_of(vai) != vpn_of(nvaddr)) by {
                        assert(nvaddr % 4096 == 0) by (nonlinear_arith)
                            requires
                                avaddr % 4096 == 0 && nvaddr == avaddr + ki * 4096,
                        ;
                        assert(pages * 4096 <= len + (vaddr - avaddr) + 4095) by {
                            lemma_fundamental_div_mod((len + (vaddr - avaddr) + 4095) as int, 4096);
                        };
                        assert(nvaddr - vai <= 0x7F_FFFF_F000) by (nonlinear_arith)
                            requires
                                nvaddr == avaddr + ki * 4096 && ki < pages && pages * 4096 <= len + (
                                vaddr - avaddr) + 4095 && len < 0x4000_0000 && avaddr <= vaddr <= vai,
                        ;
                        lemma_vpn_below_page(vai, nvaddr);
                    };
                    assert(mmu.entry_at(pud, vai) == mmu_pre.entry_at(pud, vai));
                    assert(mmu_pre.entry_at(pud, vai) == (mmu_pre.translate(pud, vai) | prot
                        | MMU_ENTRY_NEXT_PAGE));
                } else {
                    assert(vpn_of(vai) == vpn_of(nvaddr)) by {
                        let d = (vai - nvaddr) as u64;
                        assert(nvaddr % 4096 == 0) by (nonlinear_arith)
                            requires
                                avaddr % 4096 == 0 && nvaddr == avaddr + k * 4096,
                        ;
                        lemma_same_page(nvaddr, d);
                    };
                    if here {
                        // the page was present before this walk began
                        assert(mmu_pre.entry_at(pud, nvaddr) == old(mmu).entry_at(
                            pud,
                            nvaddr,
                        )) by {
                            if mmu_pre.entry_at(pud, nvaddr) != old(mmu).entry_at(pud, nvaddr) {
                                let m = choose|m: int|
                                    0 <= m < k && vpn_of(nvaddr) == #[trigger] vpn_of(
                                        (avaddr + m * 4096) as u64,
                                    );
                                assert(avaddr + m * 4096 <= avaddr + ki * 4096)
                                    by (nonlinear_arith)
                                    requires
                                        0 <= m < ki,
                                ;
                                let pm = (avaddr + m * 4096) as u64;
                                assert(pm == avaddr + m * 4096);
                                assert(pages * 4096 <= len + (vaddr - avaddr) + 4095) by {
                                    lemma_fundamental_div_mod(
                                        (len + (vaddr - avaddr) + 4095) as int,
                                        4096,
                                    );
                                };
                                assert(nvaddr % 4096 == 0 && pm < nvaddr && nvaddr - pm
                                    <= 0x7F_FFFF_F000) by (nonlinear_arith)
                                    requires
                                        avaddr % 4096 == 0 && pm == avaddr + m * 4096 && nvaddr
                                            == avaddr + ki * 4096 && 0 <= m < ki && ki < pages
                                            && pages * 4096 <= len + (vaddr - avaddr) + 4095 && len
                                            < 0x4000_0000 && avaddr <= vaddr < avaddr + 4096,
                                ;
                                lemma_vpn_below_page(pm, nvaddr);
                                assert(false);
                            }
                        };
                        lemma_entry_at_vpn(old(mmu).space_at(pud), vai, nvaddr);
                        lemma_entry_at_vpn(mmu_pre.space_at(pud), vai, nvaddr);
                        assert(old(mmu).mapped(pud, vai));
                        assert(false);
                    } else {
                        assert(mmu.entry_at(pud, nvaddr) == (mmu.translate(pud, nvaddr) | prot
                            | MMU_ENTRY_NEXT_PAGE));
                        lemma_entry_at_vpn(mmu.space_at(pud), vai, nvaddr);
                    }
                }
            }
        }
        k = k + 1;
    }
    proof {
        assert forall|i: int| 0 <= i < len implies #[trigger] mmu.space_at(pud).mapped(
            (vaddr + i) as u64,
        ) by {
            assert(vaddr + i < avaddr + pages * 4096) by (nonlinear_arith)
                requires
                    pages == ((len + (vaddr - avaddr)) + 4095) / 4096,
                    pages * 4096 == ((len + (vaddr - avaddr)) + 4095) - ((len + (vaddr - avaddr))
                        + 4095) % 4096,
                    0 <= ((len + (vaddr - avaddr)) + 4095) % 4096 < 4096,
                    0 <= i < len,
                    avaddr <= vaddr,
            ;
        }
    }
    0
}


/// Map the page-aligned hull of the non-secure source range into the
/// fixed staging window of the boot space, read-only and non-secure.
/// Returns the staging alias of `paddr` and the page count.
fn map_nonsecure_memory(mmu: &mut Mmu, pmm: &mut Pmm, ram: &mut Ram, ttbr: u64, paddr: u64,
    len: u64) -> (r: (u64, u64))
    requires
        old(mmu).inv(*old(pmm)),
        old(ram).wf(),
        old(pmm).within(*old(ram)),
        old(mmu).has_root(ttbr),
        !old(mmu).space_at(ttbr).dynamic,
        4096 <= paddr,
        0 < len,
        paddr + len < 0x80_0000_0000,
        len < 0x4000_0000,
    ensures
        final(mmu).inv(*final(pmm)),
        final(ram).wf(),
        final(pmm).within(*final(ram)),
        Pmm::same_shape(*old(pmm), *final(pmm)),
        final(ram).start == old(ram).start,
        final(ram).bytes@.len() == old(ram).bytes@.len(),
        final(mmu).linear == old(mmu).linear,
        final(mmu).ttbr == old(mmu).ttbr,
        final(mmu).spaces@.len() == old(mmu).spaces@.len(),
        final(mmu).has_root(ttbr),
        forall|i: int| 0 <= i < old(mmu).spaces@.len()
            ==> (#[trigger] final(mmu).spaces@[i]).root.addr == old(mmu).spaces@[i].root.addr
                && final(mmu).spaces@[i].dynamic == old(mmu).spaces@[i].dynamic,
        forall|i: int| 0 <= i < old(mmu).spaces@.len() && i != old(mmu).space_index(ttbr)
            ==> final(mmu).spaces@[i] == old(mmu).spaces@[i],
        forall|j: int| old(pmm).allocated(j) ==> final(pmm).allocated(j),
        r.0 == START_TEMP_REGION + (paddr - (paddr - paddr % 4096)),
        r.1 <= 0x800_0000,
        r.1 == (crate::pmm::aup((paddr + len) as int) - crate::pmm::adown(paddr as int)) / 4096,
        forall|b: int| old(ram).start <= b < old(ram).end()
            && (b < old(pmm).startmem || b >= old(pmm).startmem + old(pmm).npages() * 4096
            || old(pmm).allocated((b - old(pmm).startmem) / 4096))
            ==> final(ram).byte_at(b) == old(ram).byte_at(b),
{
    proof {
        lemma_pow2_4096();
    }
    let rpaddr = align_pow2_down(paddr, PAGE_SIZE);
    let offstart = paddr - rpaddr;
    let rlen = align_pow2_up(paddr + len, PAGE_SIZE);
    proof {
        crate::pmm::lemma_aup_unique((paddr + len) as int, rlen as int);
    }
    let pages = (rlen - rpaddr) / 4096;
    proof {
        lemma_fundamental_div_mod((rlen - rpaddr) as int, 4096);
        assert((rlen - rpaddr) % 4096 == 0) by (nonlinear_arith)
            requires
                rpaddr % 4096 == 0 && rlen % 4096 == 0 && rpaddr <= rlen,
        ;
        assert(pages * 4096 == rlen - rpaddr);
        assert(START_TEMP_REGION == 0x4_0000_0000) by (bit_vector);
        assert(pages <= 0x800_0000) by (nonlinear_arith)
            requires
                pages * 4096 == rlen - rpaddr && rlen < 0x80_0000_1000,
        ;
        assert(START_TEMP_REGION % 4096 == 0 && START_TEMP_REGION > 0) by (bit_vector);
        assert(START_TEMP_REGION + pages * 4096 <= u64::MAX) by (nonlinear_arith)
            requires
                pages <= 0x800_0000 && START_TEMP_REGION == 0x4_0000_0000,
        ;
    }
    let ghost mmu0 = *mmu;
    let ghost pmm0 = *pmm;
    let pages32 = pages as i32;
    unmap_pages(mmu, pmm, ttbr, START_TEMP_REGION, pages32);
    proof {
        let i0 = old(mmu).space_index(ttbr);
        assert(mmu0.spaces@[i0].root.addr == ttbr);
        lemma_space_at(*mmu, *pmm, i0);
        assert(mmu.has_root(ttbr)) by {
            assert(mmu.spaces@[i0].root.addr == ttbr);
        };
        assert(!mmu.space_at(ttbr).dynamic);
        assert forall|k: int| 0 <= k < pages implies !#[trigger] mmu.mapped(
            ttbr,
            (START_TEMP_REGION + k * 4096) as u64,
        ) by {}
    }
    let ghost mmu1 = *mmu;
    let ghost pmm1 = *pmm;
    proof {
        lemma_prot_clean();
    }
    map_region(mmu, pmm, ram, ttbr, START_TEMP_REGION, rpaddr, rpaddr + pages * 4096,
        EL1_RO | MMU_NS);
    proof {
        let i0 = old(mmu).space_index(ttbr);
        lemma_space_at(mmu1, pmm1, i0);
        assert(final(mmu).has_root(ttbr)) by {
            assert(mmu.spaces@[i0].root.addr == ttbr);
        };
        assert forall|j: int| 0 <= j < old(mmu).spaces@.len() && j != i0 implies
            final(mmu).spaces@[j] == old(mmu).spaces@[j] by {
            assert(mmu1.spaces@[j] == old(mmu).spaces@[j]);
            assert(mmu.spaces@[j] == mmu1.spaces@[j]);
        }
    }
    (START_TEMP_REGION + offstart, pages)
}

/// Copy `len` bytes from normal-world physical memory at `paddr` into
/// the destination range at `vaddr` of the applet space rooted at
/// `pud`, staging the source through the fixed window. With `mapin`
/// the destination is first backed with fresh pages.
pub fn memcpy_ns(mmu: &mut Mmu, pmm: &mut Pmm, ram: &mut Ram, cpu: &crate::cpu::Cpu, ns: &NsRam,
    pud: u64, vaddr: u64, paddr: u64, len: u64, mapin: bool) -> (r: i32)
    requires
        old(mmu).inv(*old(pmm)),
        old(ram).wf(),
        old(pmm).within(*old(ram)),
        ns.wf(),
        old(mmu).has_root(pud),
        old(mmu).space_at(pud).dynamic,
        old(mmu).has_root(cpu.ttbr0_el1),
        !old(mmu).space_at(cpu.ttbr0_el1).dynamic,
        len < 0x4000_0000,
        vaddr + len <= u64::MAX,
        len > 0 && paddr != u64::MAX ==> {
            &&& 4096 <= paddr
            &&& paddr + len < 0x80_0000_0000
            &&& ns.in_range(paddr, len)
        },
    ensures
        final(mmu).inv(*final(pmm)),
        final(ram).wf(),
        final(pmm).within(*final(ram)),
        Pmm::same_shape(*old(pmm), *final(pmm)),
        final(mmu).linear == old(mmu).linear,
        final(mmu).ttbr == old(mmu).ttbr,
        final(mmu).spaces@.len() == old(mmu).spaces@.len(),
        final(mmu).has_root(pud),
        forall|i: int| 0 <= i < old(mmu).spaces@.len()
            ==> (#[trigger] final(mmu).spaces@[i]).root.addr == old(mmu).spaces@[i].root.addr
                && final(mmu).spaces@[i].dynamic == old(mmu).spaces@[i].dynamic,
        forall|j: int| old(pmm).allocated(j) ==> final(pmm).allocated(j),
        len == 0 || paddr == u64::MAX ==> r == 0 && final(mmu).spaces@ == old(mmu).spaces@
            && final(ram).bytes@ == old(ram).bytes@ && final(pmm).bitmap@ == old(pmm).bitmap@,
        r == 0 && len > 0 && paddr != u64::MAX ==> copy_post(
            final(mmu).space_at(pud),
            *old(pmm),
            *old(ram),
            *final(ram),
            *ns,
            vaddr,
            paddr,
            len,
        ),
        !mapin ==> forall|va2: u64| final(mmu).entry_at(pud, va2) == old(mmu).entry_at(pud, va2),
        !mapin && len > 0 && paddr != u64::MAX && (forall|i: int| 0 <= i < len
            ==> #[trigger] old(mmu).space_at(pud).mapped((vaddr + i) as u64)) ==> r == 0,
        mapin && r != 0 ==> final(pmm).all_allocated(),
        mapin && r == 0 && len > 0 && paddr != u64::MAX ==> forall|i: int|
            #![trigger final(mmu).entry_at(pud, (vaddr + i) as u64)]
            0 <= i < len ==> final(mmu).space_at(pud).mapped((vaddr + i) as u64) && (!old(
                mmu,
            ).mapped(pud, (vaddr + i) as u64) ==> final(mmu).entry_at(pud, (vaddr + i) as u64) == (
            final(mmu).translate(pud, (vaddr + i) as u64) | EL0_RO | MMU_ENTRY_NEXT_PAGE)),
        r == 0 && len > 0 && paddr != u64::MAX ==> forall|kk: int|
            0 <= kk < (crate::pmm::aup((paddr + len) as int) - crate::pmm::adown(paddr as int))
                / 4096 ==> !#[trigger] final(mmu).mapped(
                cpu.ttbr0_el1,
                (START_TEMP_REGION + kk * 4096) as u64,
            ),
{
    if len == 0 || paddr == u64::MAX {
        return 0;
    }
    let ttbr = cpu.read_ttbr0_el1();
    let ghost i_dst = old(mmu).space_index(pud);
    let ghost i_stg = old(mmu).space_index(ttbr);
    proof {
        lemma_space_at(*old(mmu), *old(pmm), i_dst);
        lemma_space_at(*old(mmu), *old(pmm), i_stg);
        assert(i_dst != i_stg);
    }
    if mapin {
        proof {
            lemma_prot_clean();
        }
        let r = ensure_mapped_in(mmu, pmm, ram, pud, vaddr, len, EL0_RO);
        if r != 0 {
            return -1;
        }
    } else {
        let i = match mmu.find_space(pud) {
            Some(i) => i,
            None => {
                proof {
                    assert(false);
                }
                0
            },
        };
        proof {
            lemma_space_at(*mmu, *pmm, i as int);
        }
        let mut pos: u64 = 0;
        while pos < len
            invariant
                pos <= len,
                vaddr + len <= u64::MAX,
                *mmu == *old(mmu),
                *pmm == *old(pmm),
                *ram == *old(ram),
                old(mmu).inv(*old(pmm)),
                old(ram).wf(),
                old(pmm).within(*old(ram)),
                old(mmu).has_root(pud),
                len > 0,
                paddr != u64::MAX,
                !mapin,
                i < mmu.spaces@.len(),
                mmu.spaces@[i as int].root.addr == pud,
                old(mmu).space_at(pud) == mmu.spaces@[i as int],
                mmu.spaces@[i as int].wf(),
                mmu.space_at(pud) == mmu.spaces@[i as int],
                forall|j: int| 0 <= j < pos
                    ==> #[trigger] mmu.space_at(pud).mapped((vaddr + j) as u64),
            decreases len - pos,
        {
            if !mmu.spaces[i].page_mapped(vaddr + pos) {
                return -1;
            }
            pos = pos + 1;
        }
    }
    let ghost mmu_a = *mmu;
    let ghost pmm_a = *pmm;
    let ghost ram_a = *ram;
    proof {
        assert(mmu_a.has_root(ttbr)) by {
            assert(old(mmu).spaces@[i_stg].root.addr == ttbr);
            assert(mmu_a.spaces@[i_stg].root.addr == ttbr);
        };
        lemma_space_at(mmu_a, pmm_a, i_stg);
        lemma_space_at(mmu_a, pmm_a, i_dst);
        assert(mmu_a.space_at(ttbr) == mmu_a.spaces@[i_stg]);
        assert(!mmu_a.space_at(ttbr).dynamic) by {
            assert(mmu_a.spaces@[i_stg].dynamic == old(mmu).spaces@[i_stg].dynamic);
        };
    }
    let (npaddr, pages) = map_nonsecure_memory(mmu, pmm, ram, ttbr, paddr, len);
    let ghost mmu_b = *mmu;
    let ghost pmm_b = *pmm;
    let ghost ram_b = *ram;
    proof {
        lemma_space_at(mmu_b, pmm_b, i_dst);
        assert(mmu_b.spaces@[i_dst] == mmu_a.spaces@[i_dst]) by {
            assert(i_dst != mmu_a.space_index(ttbr));
        };
        assert(mmu_b.has_root(pud)) by {
            assert(mmu_b.spaces@[i_dst].root.addr == pud);
        };
        assert(mmu_b.space_at(pud) == mmu_a.space_at(pud));
        assert(mmu_b.space_at(pud).dynamic);
        assert forall|i: int| 0 <= i < len implies #[trigger] mmu_b.space_at(pud).mapped(
            (vaddr + i) as u64,
        ) by {
            assert(mmu_a.space_at(pud).mapped((vaddr + i) as u64));
        }
    }
    let rc = memcpy_chunks(mmu, pmm, ram, ns, pud, vaddr, paddr, len);
    let ghost ram_c = *ram;
    let ghost mmu_c = *mmu;
    proof {
        assert(mmu_c == mmu_b);
    }
    proof {
        assert(START_TEMP_REGION == 0x4_0000_0000) by (bit_vector);
        assert(START_TEMP_REGION + pages * 4096 <= u64::MAX) by (nonlinear_arith)
            requires
                pages <= 0x800_0000 && START_TEMP_REGION == 0x4_0000_0000,
        ;
    }
    let ghost pmm_c = *pmm;
    let pages32b = pages as i32;
    unmap_pages(mmu, pmm, ttbr, START_TEMP_REGION, pages32b);
    proof {
        lemma_space_at(mmu_c, pmm_c, i_stg);
        assert(final(mmu).spaces@[i_dst] == mmu_c.spaces@[i_dst]) by {
            assert(i_dst != mmu_c.space_index(ttbr));
        };
        assert(final(mmu).has_root(pud)) by {
            assert(final(mmu).spaces@[i_dst].root.addr == pud);
        };
        lemma_space_at(*final(mmu), *final(pmm), i_dst);
        assert(final(mmu).space_at(pud) == mmu_b.space_at(pud));
        if mapin {
            assert forall|i: int| #![trigger final(mmu).entry_at(pud, (vaddr + i) as u64)]
                0 <= i < len implies final(mmu).space_at(pud).mapped((vaddr + i) as u64) && (!old(
                mmu,
            ).mapped(pud, (vaddr + i) as u64) ==> final(mmu).entry_at(pud, (vaddr + i) as u64) == (
            final(mmu).translate(pud, (vaddr + i) as u64) | EL0_RO | MMU_ENTRY_NEXT_PAGE)) by {
                let vai = (vaddr + i) as u64;
                assert(mmu_a.space_at(pud).mapped(vai));
                assert(final(mmu).entry_at(pud, vai) == mmu_a.entry_at(pud, vai));
                if !old(mmu).mapped(pud, vai) {
                    assert(mmu_a.entry_at(pud, vai) == (mmu_a.translate(pud, vai) | EL0_RO
                        | MMU_ENTRY_NEXT_PAGE));
                }
            }
        }
        assert(*final(ram) == ram_c);
        // the copy's guarantees carry to the final state
        let sp = final(mmu).space_at(pud);
        assert(copy_post(sp, *old(pmm), *old(ram), *final(ram), *ns, vaddr, paddr, len)) by {
            assert forall|i: int| 0 <= i < len implies #[trigger] final(ram).byte_at(
                sp.resolve((vaddr + i) as u64),
            ) == ns.byte_at(paddr + i) by {
                assert(ram_c.byte_at(mmu_b.space_at(pud).resolve((vaddr + i) as u64))
                    == ns.byte_at(paddr + i));
            }
            assert forall|b: int| old(ram).start <= b < old(ram).end() && old(pmm).startmem <= b
                && b < old(pmm).startmem + old(pmm).npages() * 4096 && old(pmm).allocated(
                (b - old(pmm).startmem) / 4096,
            ) && (forall|i: int| 0 <= i < len ==> b != #[trigger] sp.resolve(
                (vaddr + i) as u64,
            )) implies final(ram).byte_at(b) == old(ram).byte_at(b) by {
                assert(ram_a.byte_at(b) == old(ram).byte_at(b));
                assert(pmm_a.allocated((b - old(pmm).startmem) / 4096));
                assert(ram_b.byte_at(b) == ram_a.byte_at(b));
                assert(ram_c.byte_at(b) == ram_b.byte_at(b)) by {
                    assert(forall|i: int| 0 <= i < len ==> b != #[trigger] mmu_b.space_at(
                        pud,
                    ).resolve((vaddr + i) as u64));
                };
            }
        };
    }
    if rc != 0 {
        return -1;
    }
    0
}


/// Page-aligned addresses below the address-space top have distinct
/// page numbers.
proof fn lemma_vpn_inj_low(x: u64, y: u64)
    requires
        x < 0x80_0000_0000,
        y < 0x80_0000_0000,
        x % 4096 == 0,
        y % 4096 == 0,
        x != y,
    ensures
        vpn_of(x) != vpn_of(y),
{
    assert(((x >> 12) & 0x7FF_FFFF) != ((y >> 12) & 0x7FF_FFFF)) by (bit_vector)
        requires
            x < 0x80_0000_0000 && y < 0x80_0000_0000 && x % 4096 == 0 && y % 4096 == 0 && x != y,
    ;
}

/// Image protections carry no address or descriptor-type bits.
proof fn lemma_image_prot_clean(map: ImageMap, addr: u64, default: u64)
    requires
        default & OA_MASK == 0,
        default & (MMU_ENTRY_NEXT_TBL | MMU_ENTRY_NEXT_PAGE) == 0,
    ensures
        spec_image_prot(map, addr, default) & OA_MASK == 0,
        spec_image_prot(map, addr, default) & (MMU_ENTRY_NEXT_TBL | MMU_ENTRY_NEXT_PAGE) == 0,
{
    assert((AP_RO | AP_EL0) & OA_MASK == 0 && (AP_RO | AP_EL0) & (MMU_ENTRY_NEXT_TBL
        | MMU_ENTRY_NEXT_PAGE) == 0 && (AP_RO | MMU_UXN | MMU_PXN | AP_EL0) & OA_MASK == 0 && (
    AP_RO | MMU_UXN | MMU_PXN | AP_EL0) & (MMU_ENTRY_NEXT_TBL | MMU_ENTRY_NEXT_PAGE) == 0 && (AP_RW
        | MMU_UXN | MMU_PXN) & OA_MASK == 0 && (AP_RW | MMU_UXN | MMU_PXN) & (MMU_ENTRY_NEXT_TBL
        | MMU_ENTRY_NEXT_PAGE) == 0) by (bit_vector);
}

/// Program translation control and enable the MMU on this core.
pub fn mmu_init_cpu(cpu: &mut crate::cpu::Cpu, pud: u64)
    ensures
        final(cpu).ttbr0_el1 == pud,
        final(cpu).ttbr1_el1 == old(cpu).ttbr1_el1,
        final(cpu).sctlr_el1 == old(cpu).sctlr_el1 | 1,
        final(cpu).mpidr_el1 == old(cpu).mpidr_el1,
{
    let tcr: u64 = ((64 - VA_BITS) << 0) | ((64 - VA_BITS) << 16);
    cpu.write_tcr_el1(tcr);
    cpu.write_ttbr0_el1(pud);
    let sctlr = cpu.read_sctlr_el1() | 1;
    cpu.write_sctlr_el1(sctlr);
}

/// Install an applet's table root as the upper-half base register.
pub fn switch_ttbr1(cpu: &mut crate::cpu::Cpu, ttbr: u64)
    ensures
        final(cpu).ttbr1_el1 == ttbr,
        final(cpu).ttbr0_el1 == old(cpu).ttbr0_el1,
        final(cpu).sctlr_el1 == old(cpu).sctlr_el1,
        final(cpu).tcr_el1 == old(cpu).tcr_el1,
        final(cpu).mpidr_el1 == old(cpu).mpidr_el1,
{
    cpu.write_ttbr1_el1(ttbr);
}

/// Translate a physical address to its alias in the linear region.
pub fn paddr2linear(mmu: &Mmu, paddr: u64) -> (r: u64)
    requires
        paddr + mmu.linear <= u64::MAX,
    ensures
        r == paddr + mmu.linear,
{
    paddr + mmu.linear
}

/// Build the boot address space: the image identity-mapped with its
/// per-region protections, and the linear alias of all secure RAM.
/// Returns the linear offset, or the sentinel on exhaustion.
#[verifier::rlimit(100)]
pub fn init(mmu: &mut Mmu, pmm: &mut Pmm, ram: &mut Ram, cpu: &mut crate::cpu::Cpu,
    map: &ImageMap, imgstart: u64, imgend: u64, ramstart: u64, ramsize: u64) -> (r: u64)
    requires
        old(mmu).inv(*old(pmm)),
        old(ram).wf(),
        old(pmm).within(*old(ram)),
        imgstart % 4096 == 0,
        imgend % 4096 == 0,
        4096 <= imgstart <= imgend,
        imgend <= START_LINEAR_REGION,
        ramstart % 4096 == 0,
        ramsize % 4096 == 0,
        4096 <= ramstart,
        ramstart <= imgstart,
        imgend <= ramstart + ramsize,
        START_LINEAR_REGION + ramstart + ramsize <= START_TEMP_REGION,
    ensures
        final(mmu).inv(*final(pmm)),
        final(ram).wf(),
        final(pmm).within(*final(ram)),
        Pmm::same_shape(*old(pmm), *final(pmm)),
        forall|j: int| old(pmm).allocated(j) ==> final(pmm).allocated(j),
        r == u64::MAX ==> final(pmm).all_allocated(),
        r != u64::MAX ==> {
            &&& r == START_LINEAR_REGION
            &&& final(mmu).linear == START_LINEAR_REGION
            &&& final(mmu).ttbr != 0
            &&& final(mmu).has_root(final(mmu).ttbr)
            &&& !final(mmu).space_at(final(mmu).ttbr).dynamic
            &&& final(cpu).ttbr0_el1 == final(mmu).ttbr
            &&& final(cpu).sctlr_el1 == old(cpu).sctlr_el1 | 1
            &&& final(mmu).phys_start == ramstart
            &&& final(mmu).phys_stop == ramstart + ramsize
            &&& forall|k: int| #![trigger final(mmu).translate(final(mmu).ttbr, (imgstart + k * 4096) as u64)]
                0 <= k < (imgend - imgstart) / 4096
                ==> final(mmu).translate(final(mmu).ttbr, (imgstart + k * 4096) as u64)
                    == imgstart + k * 4096
            &&& forall|k: int| #![trigger final(mmu).entry_at(final(mmu).ttbr, (imgstart + k * 4096) as u64)]
                0 <= k < (imgend - imgstart) / 4096
                ==> final(mmu).entry_at(final(mmu).ttbr, (imgstart + k * 4096) as u64) == ((((
                imgstart + k * 4096) as u64)) | spec_image_prot(
                    *map,
                    ((imgstart + k * 4096) as u64),
                    EL1_RX,
                ) | MMU_ENTRY_NEXT_PAGE)
            &&& forall|k: int| #![trigger final(mmu).translate(final(mmu).ttbr, (START_LINEAR_REGION + ramstart + k * 4096) as u64)]
                0 <= k < ramsize / 4096
                ==> final(mmu).translate(
                    final(mmu).ttbr,
                    (START_LINEAR_REGION + ramstart + k * 4096) as u64,
                ) == ramstart + k * 4096
        },
{
    let pud = create_space(mmu, pmm, ram, false);
    if pud == u64::MAX {
        return u64::MAX;
    }
    proof {
        assert(START_LINEAR_REGION == 0x8000_0000 && START_TEMP_REGION == 0x4_0000_0000)
            by (bit_vector);
        lemma_fundamental_div_mod((imgend - imgstart) as int, 4096);
        assert((imgend - imgstart) % 4096 == 0) by (nonlinear_arith)
            requires
                imgstart % 4096 == 0 && imgend % 4096 == 0 && imgstart <= imgend,
        ;
    }
    let imgpages = (imgend - imgstart) / 4096;
    let ghost ipg = imgpages as int;
    // identity map of the image
    let mut k: u64 = 0;
    while k < imgpages
        invariant
            0 <= k <= imgpages,
            imgpages == (imgend - imgstart) / 4096,
            imgpages * 4096 == imgend - imgstart,
            imgstart % 4096 == 0,
            4096 <= imgstart <= imgend <= START_LINEAR_REGION,
            START_LINEAR_REGION == 0x8000_0000,
            mmu.inv(*pmm),
            ram.wf(),
            pmm.within(*ram),
            Pmm::same_shape(*old(pmm), *pmm),
            forall|j: int| old(pmm).allocated(j) ==> pmm.allocated(j),
            mmu.has_root(pud),
            !mmu.space_at(pud).dynamic,
            forall|m: int| #![trigger mmu.translate(pud, (imgstart + m * 4096) as u64)] 0 <= m < k
                ==> mmu.translate(pud, (imgstart + m * 4096) as u64) == imgstart + m * 4096,
            forall|m: int| #![trigger mmu.entry_at(pud, (imgstart + m * 4096) as u64)] 0 <= m < k
                ==> mmu.entry_at(pud, (imgstart + m * 4096) as u64) == ((((imgstart + m
                    * 4096) as u64)) | spec_image_prot(*map, ((imgstart + m * 4096) as u64), EL1_RX)
                    | MMU_ENTRY_NEXT_PAGE),
            forall|va2: u64| #[trigger] mmu.entry_at(pud, va2) != 0 ==> exists|m: int|
                0 <= m < k && vpn_of(va2) == #[trigger] vpn_of((imgstart + m * 4096) as u64),
        decreases imgpages - k,
    {
        let addr = imgstart + k * 4096;
        let prot = mmu_image_prot(map, addr, EL1_RX);
        proof {
            lemma_prot_clean();
            lemma_image_prot_clean(*map, addr, EL1_RX);
            assert(addr % 4096 == 0 && addr != 0 && addr < 0x80_0000_0000) by (nonlinear_arith)
                requires
                    imgstart % 4096 == 0 && addr == imgstart + k * 4096 && 4096 <= imgstart
                        && addr < imgend && imgend <= 0x8000_0000,
            ;
            lemma_page_oa_clean(addr);
            assert(!mmu.mapped(pud, addr)) by {
                if mmu.entry_at(pud, addr) != 0 {
                    let m = choose|m: int|
                        0 <= m < k && vpn_of(addr) == #[trigger] vpn_of(
                            (imgstart + m * 4096) as u64,
                        );
                    let ki = k as int;
                    lemma_vpn_distinct((imgstart + m * 4096) as u64, ((ki - m) * 4096) as u64);
                    assert(false);
                }
            };
        }
        let ghost mmu_pre = *mmu;
        let ghost pmm_pre = *pmm;
        let rr = map_fixed(mmu, pmm, ram, pud, addr, addr, prot);
        proof {
            let i0 = mmu_pre.space_index(pud);
            assert(mmu_pre.spaces@[i0].root.addr == pud);
            lemma_space_at(mmu_pre, pmm_pre, i0);
            assert(mmu.has_root(pud)) by {
                assert(mmu.spaces@[i0].root.addr == pud);
            };
            lemma_space_at(*mmu, *pmm, i0);
            assert(!mmu.space_at(pud).dynamic);
        }
        if rr != 0 {
            return u64::MAX;
        }
        proof {
            let ki = k as int;
            assert forall|m: int| #![trigger mmu.translate(pud, (imgstart + m * 4096) as u64)]
                0 <= m < k + 1 implies mmu.translate(pud, (imgstart + m * 4096) as u64) == imgstart
                + m * 4096 by {
                let vam = (imgstart + m * 4096) as u64;
                if m < k {
                    assert(vpn_of(vam) != vpn_of(addr)) by {
                        lemma_vpn_distinct(vam, ((ki - m) * 4096) as u64);
                    };
                    assert(mmu.entry_at(pud, vam) == mmu_pre.entry_at(pud, vam));
                    assert(mmu_pre.translate(pud, vam) == imgstart + m * 4096);
                    assert(mmu.translate(pud, vam) == mmu_pre.translate(pud, vam));
                } else {
                    assert(vam == addr);
                    assert(mmu.translate(pud, addr) == addr);
                }
            }
            assert forall|m: int| #![trigger mmu.entry_at(pud, (imgstart + m * 4096) as u64)]
                0 <= m < k + 1 implies mmu.entry_at(pud, (imgstart + m * 4096) as u64) == ((((
            imgstart + m * 4096) as u64)) | spec_image_prot(
                *map,
                ((imgstart + m * 4096) as u64),
                EL1_RX,
            ) | MMU_ENTRY_NEXT_PAGE) by {
                let vam = (imgstart + m * 4096) as u64;
                if m < k {
                    assert(vpn_of(vam) != vpn_of(addr)) by {
                        lemma_vpn_distinct(vam, ((ki - m) * 4096) as u64);
                    };
                    assert(mmu.entry_at(pud, vam) == mmu_pre.entry_at(pud, vam));
                } else {
                    assert(vam == addr);
                    assert(mmu.entry_at(pud, addr) == (addr | prot | MMU_ENTRY_NEXT_PAGE));
                }
            }
            assert forall|va2: u64| #[trigger] mmu.entry_at(pud, va2) != 0 implies exists|m: int|
                0 <= m < k + 1 && vpn_of(va2) == #[trigger] vpn_of(
                    (imgstart + m * 4096) as u64,
                ) by {
                if vpn_of(va2) == vpn_of(addr) {
                    let ki = k as int;
                    assert(0 <= ki < k + 1 && vpn_of(va2) == vpn_of((imgstart + ki * 4096) as u64));
                } else {
                    assert(mmu.entry_at(pud, va2) == mmu_pre.entry_at(pud, va2));
                    let m = choose|m: int|
                        0 <= m < k && vpn_of(va2) == #[trigger] vpn_of(
                            (imgstart + m * 4096) as u64,
                        );
                    assert(0 <= m < k + 1 && vpn_of(va2) == vpn_of((imgstart + m * 4096) as u64));
                }
            }
        }
        k = k + 1;
    }
    let ghost mmu_img = *mmu;
    // linear alias of all secure RAM
    proof {
        lemma_fundamental_div_mod(ramsize as int, 4096);
    }
    let rampages = ramsize / 4096;
    let mut k2: u64 = 0;
    while k2 < rampages
        invariant
            0 <= k2 <= rampages,
            rampages == ramsize / 4096,
            rampages * 4096 == ramsize,
            ramstart % 4096 == 0,
            4096 <= ramstart,
            imgstart % 4096 == 0,
            4096 <= imgstart <= imgend <= START_LINEAR_REGION,
            imgpages * 4096 == imgend - imgstart,
            START_LINEAR_REGION == 0x8000_0000,
            START_LINEAR_REGION + ramstart + ramsize <= START_TEMP_REGION,
            START_TEMP_REGION == 0x4_0000_0000,
            mmu.inv(*pmm),
            ram.wf(),
            pmm.within(*ram),
            Pmm::same_shape(*old(pmm), *pmm),
            forall|j: int| old(pmm).allocated(j) ==> pmm.allocated(j),
            mmu.has_root(pud),
            !mmu.space_at(pud).dynamic,
            forall|m: int| #![trigger mmu.translate(pud, (imgstart + m * 4096) as u64)]
                0 <= m < imgpages
                ==> mmu.translate(pud, (imgstart + m * 4096) as u64) == imgstart + m * 4096,
            forall|m: int| #![trigger mmu.entry_at(pud, (imgstart + m * 4096) as u64)]
                0 <= m < imgpages
                ==> mmu.entry_at(pud, (imgstart + m * 4096) as u64) == ((((imgstart + m
                    * 4096) as u64)) | spec_image_prot(*map, ((imgstart + m * 4096) as u64), EL1_RX)
                    | MMU_ENTRY_NEXT_PAGE),
            forall|m: int| #![trigger mmu.translate(pud, (START_LINEAR_REGION + ramstart + m * 4096) as u64)]
                0 <= m < k2
                ==> mmu.translate(pud, (START_LINEAR_REGION + ramstart + m * 4096) as u64)
                    == ramstart + m * 4096,
            forall|va2: u64| #[trigger] mmu.entry_at(pud, va2) == mmu_img.entry_at(pud, va2) || (
            exists|m: int|
                0 <= m < k2 && vpn_of(va2) == #[trigger] vpn_of(
                    (START_LINEAR_REGION + ramstart + m * 4096) as u64,
                )),
            ipg == imgpages,
            forall|va2: u64| #[trigger] mmu_img.entry_at(pud, va2) != 0 ==> exists|m: int|
                0 <= m < ipg && vpn_of(va2) == #[trigger] vpn_of((imgstart + m * 4096) as u64),
        decreases rampages - k2,
    {
        let pa = ramstart + k2 * 4096;
        let va = START_LINEAR_REGION + pa;
        let prot = mmu_image_prot(map, pa, EL1_RW);
        proof {
            lemma_prot_clean();
            lemma_image_prot_clean(*map, pa, EL1_RW);
            assert(pa % 4096 == 0 && pa != 0 && pa < 0x80_0000_0000 && va % 4096 == 0 && va
                < 0x80_0000_0000) by (nonlinear_arith)
                requires
                    ramstart % 4096 == 0 && pa == ramstart + k2 * 4096 && 4096 <= ramstart && va
                        == 0x8000_0000 + pa && pa + 0x8000_0000 < 0x4_0000_0000,
            ;
            lemma_page_oa_clean(pa);
            assert(!mmu.mapped(pud, va)) by {
                if mmu.entry_at(pud, va) == mmu_img.entry_at(pud, va) {
                    if mmu_img.entry_at(pud, va) != 0 {
                        let m = choose|m: int|
                            0 <= m < imgpages && vpn_of(va) == #[trigger] vpn_of(
                                (imgstart + m * 4096) as u64,
                            );
                        let vam = (imgstart + m * 4096) as u64;
                        assert(vam < START_LINEAR_REGION && vam % 4096 == 0) by (nonlinear_arith)
                            requires
                                vam == imgstart + m * 4096 && 0 <= m < ipg && ipg * 4096 == imgend
                                    - imgstart && imgend <= START_LINEAR_REGION && imgstart >= 4096
                                    && imgstart % 4096 == 0,
                        ;
                        lemma_vpn_inj_low(vam, va);
                        assert(false);
                    }
                } else {
                    let m = choose|m: int|
                        0 <= m < k2 && vpn_of(va) == #[trigger] vpn_of(
                            (START_LINEAR_REGION + ramstart + m * 4096) as u64,
                        );
                    let k2i = k2 as int;
                    lemma_vpn_distinct(
                        (START_LINEAR_REGION + ramstart + m * 4096) as u64,
                        ((k2i - m) * 4096) as u64,
                    );
                    assert(false);
                }
            };
        }
        let ghost mmu_pre = *mmu;
        let ghost pmm_pre = *pmm;
        let rr = map_fixed(mmu, pmm, ram, pud, va, pa, prot);
        proof {
            let i0 = mmu_pre.space_index(pud);
            assert(mmu_pre.spaces@[i0].root.addr == pud);
            lemma_space_at(mmu_pre, pmm_pre, i0);
            assert(mmu.has_root(pud)) by {
                assert(mmu.spaces@[i0].root.addr == pud);
            };
            lemma_space_at(*mmu, *pmm, i0);
            assert(!mmu.space_at(pud).dynamic);
        }
        if rr != 0 {
            return u64::MAX;
        }
        proof {
            let k2i = k2 as int;
            assert forall|m: int| #![trigger mmu.translate(pud, (imgstart + m * 4096) as u64)]
                0 <= m < imgpages implies mmu.translate(pud, (imgstart + m * 4096) as u64)
                == imgstart + m * 4096 by {
                let vam = (imgstart + m * 4096) as u64;
                assert(vam < START_LINEAR_REGION && vam % 4096 == 0) by (nonlinear_arith)
                    requires
                        vam == imgstart + m * 4096 && 0 <= m < ipg && ipg * 4096 == imgend
                            - imgstart && imgend <= START_LINEAR_REGION && imgstart >= 4096
                            && imgstart % 4096 == 0,
                ;
                assert(vpn_of(vam) != vpn_of(va)) by {
                    lemma_vpn_inj_low(vam, va);
                };
                assert(mmu.entry_at(pud, vam) == mmu_pre.entry_at(pud, vam));
                assert(mmu_pre.translate(pud, vam) == imgstart + m * 4096);
                assert(mmu.translate(pud, vam) == mmu_pre.translate(pud, vam));
            }
            assert forall|m: int| #![trigger mmu.entry_at(pud, (imgstart + m * 4096) as u64)]
                0 <= m < imgpages implies mmu.entry_at(pud, (imgstart + m * 4096) as u64) == ((((
            imgstart + m * 4096) as u64)) | spec_image_prot(
                *map,
                ((imgstart + m * 4096) as u64),
                EL1_RX,
            ) | MMU_ENTRY_NEXT_PAGE) by {
                let vam = (imgstart + m * 4096) as u64;
                assert(vam < START_LINEAR_REGION && vam % 4096 == 0) by (nonlinear_arith)
                    requires
                        vam == imgstart + m * 4096 && 0 <= m < ipg && ipg * 4096 == imgend
                            - imgstart && imgend <= START_LINEAR_REGION && imgstart >= 4096
                            && imgstart % 4096 == 0,
                ;
                assert(vpn_of(vam) != vpn_of(va)) by {
                    lemma_vpn_inj_low(vam, va);
                };
                assert(mmu.entry_at(pud, vam) == mmu_pre.entry_at(pud, vam));
            }
            assert forall|m: int| #![trigger mmu.translate(pud, (START_LINEAR_REGION + ramstart + m * 4096) as u64)]
                0 <= m < k2 + 1 implies mmu.translate(
                pud,
                (START_LINEAR_REGION + ramstart + m * 4096) as u64,
            ) == ramstart + m * 4096 by {
                let vam = (START_LINEAR_REGION + ramstart + m * 4096) as u64;
                if m < k2 {
                    assert(vpn_of(vam) != vpn_of(va)) by {
                        lemma_vpn_distinct(vam, ((k2i - m) * 4096) as u64);
                    };
                    assert(mmu.entry_at(pud, vam) == mmu_pre.entry_at(pud, vam));
                    assert(mmu_pre.translate(pud, vam) == ramstart + m * 4096);
                    assert(mmu.translate(pud, vam) == mmu_pre.translate(pud, vam));
                } else {
                    assert(vam == va);
                    assert(mmu.translate(pud, va) == pa);
                }
            }
            assert forall|va2: u64| #[trigger] mmu.entry_at(pud, va2) == mmu_img.entry_at(
                pud,
                va2,
            ) || (exists|m: int|
                0 <= m < k2 + 1 && vpn_of(va2) == #[trigger] vpn_of(
                    (START_LINEAR_REGION + ramstart + m * 4096) as u64,
                )) by {
                if vpn_of(va2) == vpn_of(va) {
                    assert(0 <= k2i < k2 + 1 && vpn_of(va2) == vpn_of(
                        (START_LINEAR_REGION + ramstart + k2i * 4096) as u64,
                    ));
                } else {
                    assert(mmu.entry_at(pud, va2) == mmu_pre.entry_at(pud, va2));
                    if mmu_pre.entry_at(pud, va2) == mmu_img.entry_at(pud, va2) {
                    } else {
                        let m = choose|m: int|
                            0 <= m < k2 && vpn_of(va2) == #[trigger] vpn_of(
                                (START_LINEAR_REGION + ramstart + m * 4096) as u64,
                            );
                        assert(0 <= m < k2 + 1 && vpn_of(va2) == vpn_of(
                            (START_LINEAR_REGION + ramstart + m * 4096) as u64,
                        ));
                    }
                }
            }
        }
        k2 = k2 + 1;
    }
    let ghost mmu_done = *mmu;
    let ghost pmm_done = *pmm;
    mmu.linear = START_LINEAR_REGION;
    mmu.ttbr = pud;
    mmu.phys_start = ramstart;
    mmu.phys_stop = ramstart + ramsize;
    mmu_init_cpu(cpu, pud);
    proof {
        assert(mmu.spaces@ == mmu_done.spaces@);
        let i0 = mmu_done.space_index(pud);
        assert(0 <= i0 < mmu_done.spaces@.len() && mmu_done.spaces@[i0].root.addr == pud) by {
            lemma_space_at(mmu_done, pmm_done, mmu_done.space_index(pud));
            assert(mmu_done.has_root(pud));
        };
        assert(mmu.has_root(pud)) by {
            assert(mmu.spaces@[i0].root.addr == pud);
        };
        assert(mmu.inv(*pmm)) by {
            assert forall|i: int| 0 <= i < mmu.spaces@.len() implies (
            #[trigger] mmu.spaces@[i]).wf() by {
                assert(mmu.spaces@[i] == mmu_done.spaces@[i]);
            }
            assert forall|i: int| 0 <= i < mmu.spaces@.len() implies (
            #[trigger] mmu.spaces@[i]).owned_allocated(*pmm) by {
                assert(mmu.spaces@[i] == mmu_done.spaces@[i]);
            }
            assert forall|i: int, j: int|
                0 <= i < mmu.spaces@.len() && 0 <= j < mmu.spaces@.len() && i != j implies (
            #[trigger] mmu.spaces@[i]).disjoint_from(#[trigger] mmu.spaces@[j]) by {
                assert(mmu.spaces@[i] == mmu_done.spaces@[i]);
                assert(mmu.spaces@[j] == mmu_done.spaces@[j]);
            }
        };
        lemma_space_at(*mmu, *pmm, i0);
        lemma_space_at(mmu_done, pmm_done, i0);
        assert(mmu.space_at(pud) == mmu_done.space_at(pud));
        assert(!mmu.space_at(pud).dynamic);
        assert forall|k: int|
            #![trigger mmu.translate(pud, (imgstart + k * 4096) as u64)]
            0 <= k < (imgend - imgstart) / 4096 implies mmu.translate(
            pud,
            (imgstart + k * 4096) as u64,
        ) == imgstart + k * 4096 by {
            assert(mmu_done.translate(pud, (imgstart + k * 4096) as u64) == imgstart + k * 4096);
        }
        assert forall|k: int|
            #![trigger mmu.entry_at(pud, (imgstart + k * 4096) as u64)]
            0 <= k < (imgend - imgstart) / 4096 implies mmu.entry_at(
            pud,
            (imgstart + k * 4096) as u64,
        ) == ((((imgstart + k * 4096) as u64)) | spec_image_prot(
            *map,
            ((imgstart + k * 4096) as u64),
            EL1_RX,
        ) | MMU_ENTRY_NEXT_PAGE) by {
            assert(mmu_done.entry_at(pud, (imgstart + k * 4096) as u64) == ((((imgstart + k
                * 4096) as u64)) | spec_image_prot(*map, ((imgstart + k * 4096) as u64), EL1_RX)
                | MMU_ENTRY_NEXT_PAGE));
        }
        assert forall|k: int|
            #![trigger mmu.translate(pud, (START_LINEAR_REGION + ramstart + k * 4096) as u64)]
            0 <= k < ramsize / 4096 implies mmu.translate(
            pud,
            (START_LINEAR_REGION + ramstart + k * 4096) as u64,
        ) == ramstart + k * 4096 by {
            assert(mmu_done.translate(pud, (START_LINEAR_REGION + ramstart + k * 4096) as u64)
                == ramstart + k * 4096);
        }
    }
    START_LINEAR_REGION
}

/// Identity-map a device range read-write for the monitor.
pub fn map_dma(mmu: &mut Mmu, pmm: &mut Pmm, ram: &mut Ram, addrstart: u64, addrend: u64) -> (r:
    i32)
    requires
        old(mmu).inv(*old(pmm)),
        old(ram).wf(),
        old(pmm).within(*old(ram)),
        old(mmu).has_root(old(mmu).ttbr),
        !old(mmu).space_at(old(mmu).ttbr).dynamic,
        addrstart % 4096 == 0,
        addrend % 4096 == 0,
        0 < addrstart < addrend,
        addrend <= 0x80_0000_0000,
        forall|k: int| 0 <= k < (addrend - addrstart) / 4096
            ==> !#[trigger] old(mmu).mapped(old(mmu).ttbr, (addrstart + k * 4096) as u64),
    ensures
        final(mmu).inv(*final(pmm)),
        final(ram).wf(),
        final(pmm).within(*final(ram)),
        final(mmu).ttbr == old(mmu).ttbr,
        final(mmu).linear == old(mmu).linear,
        r == 0 ==> forall|k: int|
            #![trigger final(mmu).translate(old(mmu).ttbr, (addrstart + k * 4096) as u64)]
            0 <= k < (addrend - addrstart) / 4096
            ==> final(mmu).translate(old(mmu).ttbr, (addrstart + k * 4096) as u64) == addrstart + k
                * 4096,
        r != 0 ==> final(pmm).all_allocated(),
{
    proof {
        lemma_prot_clean();
    }
    let ttbr = mmu.ttbr;
    let r = map_region(mmu, pmm, ram, ttbr, addrstart, addrstart, addrend, EL1_RW);
    proof {
        if r == 0 {
            assert forall|k: int|
                #![trigger final(mmu).translate(old(mmu).ttbr, (addrstart + k * 4096) as u64)]
                0 <= k < (addrend - addrstart) / 4096 implies final(mmu).translate(
                old(mmu).ttbr,
                (addrstart + k * 4096) as u64,
            ) == addrstart + k * 4096 by {
                let vam = (addrstart + k * 4096) as u64;
                assert(final(mmu).entry_at(ttbr, vam) == (((addrstart + k * 4096) as u64) | EL1_RW
                    | MMU_ENTRY_NEXT_PAGE));
                assert(vam % 4096 == 0 && vam != 0 && vam < 0x80_0000_0000) by (nonlinear_arith)
                    requires
                        addrstart % 4096 == 0 && vam == addrstart + k * 4096 && 0 < addrstart && 0
                            <= k && k * 4096 < addrend - addrstart && addrend <= 0x80_0000_0000,
                ;
                lemma_page_oa_clean(vam);
                lemma_leaf_fields(vam, EL1_RW);
            }
        }
    }
    r
}


/// Physical address of `va` in the space rooted at `pud`.
pub fn vaddr_to_paddr(mmu: &Mmu, pmm: &Pmm, pud: u64, va: u64) -> (r: u64)
    requires
        mmu.inv(*pmm),
        mmu.has_root(pud),
    ensures
        r == mmu.translate(pud, va),
{
    let i = match mmu.find_space(pud) {
        Some(i) => i,
        None => {
            proof {
                assert(false);
            }
            0
        },
    };
    proof {
        lemma_space_at(*mmu, *pmm, i as int);
    }
    mmu.spaces[i].vaddr_to_paddr(va)
}

/// Allocate pages into the monitor's own (lower-half) address space,
/// behaving exactly as the full-range allocation on the current
/// lower-half root.
pub fn alloc_pages_el1(mmu: &mut Mmu, pmm: &mut Pmm, ram: &mut Ram, cpu: &crate::cpu::Cpu,
    vaddr: u64, pages: i32, prot: u64) -> (r: i32)
    requires
        old(mmu).inv(*old(pmm)),
        old(ram).wf(),
        old(pmm).within(*old(ram)),
        old(mmu).has_root(cpu.ttbr0_el1),
        0 <= pages <= 0x800_0000,
        vaddr + pages * 4096 <= u64::MAX,
        prot & OA_MASK == 0,
        prot & (MMU_ENTRY_NEXT_TBL | MMU_ENTRY_NEXT_PAGE) == 0,
    ensures
        final(mmu).inv(*final(pmm)),
        final(ram).wf(),
        final(pmm).within(*final(ram)),
        Pmm::same_shape(*old(pmm), *final(pmm)),
        r == i32::MIN ==> final(mmu).spaces@ == old(mmu).spaces@ && final(pmm).bitmap@ == old(
            pmm,
        ).bitmap@,
        !(forall|k: int| 0 <= k < pages
            ==> !#[trigger] old(mmu).mapped(cpu.ttbr0_el1, (vaddr + k * 4096) as u64)) ==> r
            == i32::MIN,
        r != 0 && r != i32::MIN ==> r == -1 && final(pmm).all_allocated(),
        r == 0 ==> forall|k: int|
            #![trigger final(mmu).translate(cpu.ttbr0_el1, (vaddr + k * 4096) as u64)]
            0 <= k < pages ==> {
            let p = final(mmu).translate(cpu.ttbr0_el1, (vaddr + k * 4096) as u64);
            &&& p != u64::MAX
            &&& final(mmu).entry_at(cpu.ttbr0_el1, (vaddr + k * 4096) as u64) == (p | prot
                | MMU_ENTRY_NEXT_PAGE)
            &&& !old(pmm).allocated(old(pmm).page_index(p))
            &&& final(pmm).allocated(old(pmm).page_index(p))
            &&& forall|b: int| p <= b < p + 4096 ==> final(ram).byte_at(b) == 0
        },
        r == 0 ==> forall|j: int| old(pmm).allocated(j) ==> final(pmm).allocated(j),
        forall|va2: u64| #[trigger] final(mmu).entry_at(cpu.ttbr0_el1, va2) == old(mmu).entry_at(
            cpu.ttbr0_el1,
            va2,
        ) || (exists|k: int|
            0 <= k < pages && vpn_of(va2) == #[trigger] vpn_of((vaddr + k * 4096) as u64)),
{
    let pud = cpu.read_ttbr0_el1();
    let r = alloc_pages(mmu, pmm, ram, pud, vaddr, pages, prot);
    proof {
        if r == 0 {
            assert forall|k: int|
                #![trigger final(mmu).translate(cpu.ttbr0_el1, (vaddr + k * 4096) as u64)]
                0 <= k < pages implies {
                let p = final(mmu).translate(cpu.ttbr0_el1, (vaddr + k * 4096) as u64);
                &&& p != u64::MAX
                &&& final(mmu).entry_at(cpu.ttbr0_el1, (vaddr + k * 4096) as u64) == (p | prot
                    | MMU_ENTRY_NEXT_PAGE)
                &&& !old(pmm).allocated(old(pmm).page_index(p))
                &&& final(pmm).allocated(old(pmm).page_index(p))
                &&& forall|b: int| p <= b < p + 4096 ==> final(ram).byte_at(b) == 0
            } by {
                assert(final(mmu).translate(pud, (vaddr + k * 4096) as u64) != u64::MAX);
            }
        }
        assert forall|va2: u64| #[trigger] final(mmu).entry_at(cpu.ttbr0_el1, va2) == old(
            mmu,
        ).entry_at(cpu.ttbr0_el1, va2) || (exists|k: int|
            0 <= k < pages && vpn_of(va2) == #[trigger] vpn_of((vaddr + k * 4096) as u64)) by {
            assert(final(mmu).entry_at(pud, va2) == old(mmu).entry_at(pud, va2) || (exists|k: int|
                0 <= k < pages && vpn_of(va2) == #[trigger] vpn_of((vaddr + k * 4096) as u64)));
        }
    }
    r
}

/// Allocate one page into the monitor's own address space, behaving
/// exactly as the single-page allocation on the current lower-half
/// root.
pub fn alloc_page_el1(mmu: &mut Mmu, pmm: &mut Pmm, ram: &mut Ram, cpu: &crate::cpu::Cpu,
    vaddr: u64, prot: u64) -> (r: i32)
    requires
        old(mmu).inv(*old(pmm)),
        old(ram).wf(),
        old(pmm).within(*old(ram)),
        old(mmu).has_root(cpu.ttbr0_el1),
        prot & OA_MASK == 0,
        prot & (MMU_ENTRY_NEXT_TBL | MMU_ENTRY_NEXT_PAGE) == 0,
    ensures
        final(mmu).inv(*final(pmm)),
        final(ram).wf(),
        final(pmm).within(*final(ram)),
        Pmm::same_shape(*old(pmm), *final(pmm)),
        !old(mmu).mapped(cpu.ttbr0_el1, vaddr) || !old(mmu).space_at(cpu.ttbr0_el1).dynamic
            ==> forall|j: int| old(pmm).allocated(j) ==> final(pmm).allocated(j),
        r == 0 && old(mmu).space_at(cpu.ttbr0_el1).dynamic && old(mmu).mapped(
            cpu.ttbr0_el1,
            vaddr,
        ) ==> !final(pmm).allocated(
            old(pmm).page_index(oa_of(old(mmu).entry_at(cpu.ttbr0_el1, vaddr))),
        ),
        r != 0 ==> final(pmm).all_allocated(),
        r != 0 ==> forall|va2: u64| final(mmu).entry_at(cpu.ttbr0_el1, va2) == old(mmu).entry_at(
            cpu.ttbr0_el1,
            va2,
        ),
        r == 0 ==> {
            let p = final(mmu).translate(cpu.ttbr0_el1, vaddr);
            &&& p != u64::MAX
            &&& final(mmu).entry_at(cpu.ttbr0_el1, vaddr) == (p | prot | MMU_ENTRY_NEXT_PAGE)
            &&& !old(pmm).allocated(old(pmm).page_index(p))
            &&& final(pmm).allocated(final(pmm).page_index(p))
            &&& forall|b: int| p <= b < p + 4096 ==> final(ram).byte_at(b) == 0
        },
        forall|va2: u64| vpn_of(va2) != vpn_of(vaddr) ==> final(mmu).entry_at(cpu.ttbr0_el1, va2)
            == old(mmu).entry_at(cpu.ttbr0_el1, va2),
{
    let pud = cpu.read_ttbr0_el1();
    let r = alloc_page(mmu, pmm, ram, pud, vaddr, prot);
    proof {
        if r == 0 {
            assert(final(mmu).translate(pud, vaddr) != u64::MAX);
        }
    }
    r
}

/// Whether one page of the monitor's own address space is still free.
pub fn page_available_el1(mmu: &Mmu, pmm: &Pmm, cpu: &crate::cpu::Cpu, vaddr: u64) -> (r: bool)
    requires
        mmu.inv(*pmm),
        mmu.has_root(cpu.ttbr0_el1),
    ensures
        r == !mmu.mapped(cpu.ttbr0_el1, vaddr),
{
    let i = match mmu.find_space(cpu.read_ttbr0_el1()) {
        Some(i) => i,
        None => {
            proof {
                assert(false);
            }
            0
        },
    };
    proof {
        lemma_space_at(*mmu, *pmm, i as int);
    }
    !mmu.spaces[i].page_mapped(vaddr)
}


/// A byte of an already-allocated page cannot lie in a page that was
/// still free.
pub proof fn lemma_fresh_page_frame(pmm: Pmm, p: u64, b: int)
    requires
        pmm.wf(),
        pmm.valid_page_addr(p),
        !pmm.allocated(pmm.page_index(p)),
        pmm.startmem <= b < pmm.startmem + pmm.npages() * 4096,
        pmm.allocated((b - pmm.startmem) / 4096),
    ensures
        !(p <= b < p + 4096),
{
    if p <= b < p + 4096 {
        lemma_page_addr_bound(pmm, p);
        lemma_fundamental_div_mod((p - pmm.startmem) as int, 4096);
        assert((b - pmm.startmem) / 4096 == pmm.page_index(p)) by {
            lemma_fundamental_div_mod_converse(b - pmm.startmem, 4096, pmm.page_index(p), b - p);
        };
        assert(false);
    }
}


/// A mapped byte of a dynamic space resolves into an allocated page of
/// the manager's window.
proof fn lemma_resolve_in_window(sp: AddrSpace, pmm: Pmm, va: u64)
    requires
        sp.wf(),
        sp.dynamic,
        pmm.wf(),
        sp.owned_allocated(pmm),
        sp.mapped(va),
    ensures
        pmm.startmem <= sp.resolve(va) < pmm.startmem + pmm.npages() * 4096,
        pmm.allocated((sp.resolve(va) - pmm.startmem) / 4096),
{
    lemma_leaf_of_entry(sp, va);
    assert(sp.owns_page(oa_of(sp.entry_at(va))));
    let p = oa_of(sp.entry_at(va));
    lemma_page_addr_bound(pmm, p);
    lemma_fundamental_div_mod((p - pmm.startmem) as int, 4096);
    assert(va % 4096 < 4096) by {
        lemma_fundamental_div_mod(va as int, 4096);
    };
    let pi = pmm.page_index(p);
    let np = pmm.npages();
    assert(4096 * (pi + 1) <= 4096 * np) by (nonlinear_arith)
        requires
            pi < np,
    ;
    assert(4096 * np == np * 4096) by (nonlinear_arith);
    assert((sp.resolve(va) - pmm.startmem) / 4096 == pi) by {
        lemma_fundamental_div_mod_converse(
            sp.resolve(va) - pmm.startmem,
            4096,
            pi,
            sp.resolve(va) - p,
        );
    };
}

/// Copying a spanning buffer in one go leaves the destination
/// byte-for-byte as two back-to-back in-bounds copies of its halves
/// would.
pub proof fn lemma_copy_split(sp: AddrSpace, pmm: Pmm, ram0: crate::memory::Ram,
    ram1: crate::memory::Ram, ram2a: crate::memory::Ram, ram2b: crate::memory::Ram, ns: NsRam,
    vaddr: u64, paddr: u64, cut: u64, len: u64)
    requires
        sp.wf(),
        sp.dynamic,
        pmm.wf(),
        sp.owned_allocated(pmm),
        0 < cut < len,
        len < 0x80_0000_0000,
        vaddr + len <= u64::MAX,
        paddr + len <= u64::MAX,
        ram0.wf(),
        pmm.within(ram0),
        forall|i: int| 0 <= i < len ==> #[trigger] sp.mapped((vaddr + i) as u64),
        copy_post(sp, pmm, ram0, ram1, ns, vaddr, paddr, len),
        copy_post(sp, pmm, ram0, ram2a, ns, vaddr, paddr, cut),
        copy_post(sp, pmm, ram2a, ram2b, ns, (vaddr + cut) as u64, (paddr + cut) as u64,
            (len - cut) as u64),
    ensures
        forall|i: int| 0 <= i < len ==> #[trigger] ram2b.byte_at(sp.resolve((vaddr + i) as u64))
            == ram1.byte_at(sp.resolve((vaddr + i) as u64)),
{
    assert forall|i: int| 0 <= i < len implies #[trigger] ram2b.byte_at(
        sp.resolve((vaddr + i) as u64),
    ) == ram1.byte_at(sp.resolve((vaddr + i) as u64)) by {
        let vai = (vaddr + i) as u64;
        assert(sp.mapped(vai));
        assert(ram1.byte_at(sp.resolve(vai)) == ns.byte_at(paddr + i));
        if i < cut {
            // the second copy writes other bytes only
            assert(ram2a.byte_at(sp.resolve(vai)) == ns.byte_at(paddr + i));
            lemma_resolve_in_window(sp, pmm, vai);
            assert(ram2a.start == ram0.start && ram2a.bytes@.len() == ram0.bytes@.len());
            assert forall|j: int| 0 <= j < len - cut implies sp.resolve(vai)
                != #[trigger] sp.resolve((((vaddr + cut) as u64) + j) as u64) by {
                let vaj = (((vaddr + cut) as u64) + j) as u64;
                assert(vaj == (vaddr + (cut + j)) as u64);
                assert(sp.mapped((vaddr + (cut + j)) as u64));
                lemma_resolve_distinct(sp, vai, vaj);
            }
            assert(ram2b.byte_at(sp.resolve(vai)) == ram2a.byte_at(sp.resolve(vai)));
        } else {
            let j = i - cut;
            assert((((vaddr + cut) as u64) + j) as u64 == vai);
            assert(ram2b.byte_at(sp.resolve(vai)) == ns.byte_at(((paddr + cut) as u64) + j));
            assert(ns.byte_at(((paddr + cut) as u64) + j) == ns.byte_at(paddr + i));
        }
    }
}

/// A translation that finds nothing yields the failure sentinel; in
/// particular, after an unmapping, the translation fails.
pub proof fn lemma_unmapped_translate(sp: AddrSpace, va: u64)
    requires
        !sp.mapped(va),
    ensures
        sp.translate(va) == u64::MAX,
{
}

} // verus!
