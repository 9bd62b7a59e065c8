//! Physical page manager: a bitmap-backed allocator over the contiguous
//! secure-RAM range, one bit per 4 KiB page. The bitmap is scanned
//! byte-by-byte and the first clear bit wins; `u64::MAX` is the failure
//! sentinel on exhaustion.

use vstd::prelude::*;
use vstd::arithmetic::div_mod::{
    lemma_fundamental_div_mod, lemma_fundamental_div_mod_converse, lemma_mod_bound,
    lemma_mod_multiples_basic, lemma_mod_add_multiples_vanish,
};
use vstd::arithmetic::mul::lemma_mul_strict_inequality;
use crate::bits::{nth_bit, test_bit, set_bit, clear_bit, lemma_full_byte};
use crate::math::{align_pow2_down, align_pow2_up, lemma_pow2_4096};
use crate::memory::Ram;

verus! {

pub const PHYS_PAGE_SIZE: u64 = 4096;

/// Tracker of which physical pages are handed out. `bmaddr` records where
/// the bitmap itself lives in RAM, so those pages can be reserved and the
/// recorded location can be rebased once the linear mapping is live.
pub struct Pmm {
    pub bitmap: Vec<u8>,
    pub startmem: u64,
    pub pages: u64,
    pub bmaddr: u64,
}

/// Round an address down to its page boundary (specification mirror).
pub open spec fn adown(v: int) -> int {
    v - v % 4096
}

/// Round an address up to the next page boundary (specification mirror).
pub open spec fn aup(v: int) -> int {
    adown(v) + if v % 4096 == 0 { 0int } else { 4096int }
}

impl Pmm {
    pub open spec fn npages(self) -> int {
        (self.bitmap@.len() * 8) as int
    }

    pub open spec fn wf(self) -> bool {
        &&& self.startmem >= 4096
        &&& self.startmem % 4096 == 0
        &&& self.pages == self.npages()
        &&& self.startmem + self.pages * 4096 <= 0x80_0000_0000
    }

    /// Whether page `i` is currently marked allocated.
    pub open spec fn allocated(self, i: int) -> bool {
        0 <= i < self.npages() && nth_bit(self.bitmap@[i / 8], (i % 8) as u8)
    }

    pub open spec fn page_addr(self, i: int) -> int {
        self.startmem + i * 4096
    }

    pub open spec fn page_index(self, addr: u64) -> int {
        (addr - self.startmem) / 4096
    }

    /// An address naming one of the pages this manager tracks.
    pub open spec fn valid_page_addr(self, addr: u64) -> bool {
        self.startmem <= addr && addr % 4096 == 0 && self.page_index(addr) < self.npages()
    }

    pub open spec fn same_shape(pre: Pmm, post: Pmm) -> bool {
        &&& post.startmem == pre.startmem
        &&& post.pages == pre.pages
        &&& post.bmaddr == pre.bmaddr
        &&& post.bitmap@.len() == pre.bitmap@.len()
    }

    pub open spec fn all_allocated(self) -> bool {
        forall|i: int| 0 <= i < self.npages() ==> self.allocated(i)
    }

    /// What one successful or failed allocation does to the manager.
    pub open spec fn alloc_post(pre: Pmm, post: Pmm, r: u64) -> bool {
        &&& Self::same_shape(pre, post)
        &&& if r == u64::MAX {
            post.bitmap@ == pre.bitmap@ && pre.all_allocated()
        } else {
            let idx = pre.page_index(r);
            &&& pre.valid_page_addr(r)
            &&& !pre.allocated(idx)
            &&& post.allocated(idx)
            &&& forall|j: int| 0 <= j < idx ==> pre.allocated(j)
            &&& forall|j: int| j != idx ==> post.allocated(j) == pre.allocated(j)
        }
    }

    /// What freeing page `p` does to the manager.
    pub open spec fn free_post(pre: Pmm, post: Pmm, p: u64) -> bool {
        &&& Self::same_shape(pre, post)
        &&& !post.allocated(pre.page_index(p))
        &&& forall|j: int| j != pre.page_index(p) ==> post.allocated(j) == pre.allocated(j)
    }

    /// Clear the bit of page `page`.
    fn _decref(&mut self, page: u64)
        requires
            old(self).wf(),
            page < old(self).npages(),
        ensures
            final(self).wf(),
            Self::same_shape(*old(self), *final(self)),
            !final(self).allocated(page as int),
            forall|j: int| j != page ==> final(self).allocated(j) == old(self).allocated(j),
    {
        let byte = (page / 8) as usize;
        let offs = (page % 8) as u8;
        let byteval = self.bitmap[byte];
        let nb = clear_bit(byteval, offs);
        self.bitmap.set(byte, nb);
        proof {
            lemma_bit_slot(page as int);
            assert forall|j: int| j != page implies final(self).allocated(j) == old(
                self,
            ).allocated(j) by {
                if 0 <= j < self.npages() {
                    lemma_bit_slot(j);
                    if j / 8 == page as int / 8 {
                        lemma_slot_unique(j, page as int);
                    }
                }
            }
        }
    }

    /// Set the bit of page `page`.
    fn _addref(&mut self, page: u64)
        requires
            old(self).wf(),
            page < old(self).npages(),
        ensures
            final(self).wf(),
            Self::same_shape(*old(self), *final(self)),
            final(self).allocated(page as int),
            forall|j: int| j != page ==> final(self).allocated(j) == old(self).allocated(j),
    {
        let byte = (page / 8) as usize;
        let offs = (page % 8) as u8;
        let byteval = self.bitmap[byte];
        let nb = set_bit(byteval, offs);
        self.bitmap.set(byte, nb);
        proof {
            lemma_bit_slot(page as int);
            assert forall|j: int| j != page implies final(self).allocated(j) == old(
                self,
            ).allocated(j) by {
                if 0 <= j < self.npages() {
                    lemma_bit_slot(j);
                    if j / 8 == page as int / 8 {
                        lemma_slot_unique(j, page as int);
                    }
                }
            }
        }
    }

    /// Scan for the first clear bit; set it and return its index, or `-1`
    /// when every page is taken.
    pub fn find_free(&mut self) -> (r: i32)
        requires
            old(self).wf(),
        ensures
            final(self).wf(),
            Self::same_shape(*old(self), *final(self)),
            r >= 0 ==> {
                &&& r < old(self).npages()
                &&& !old(self).allocated(r as int)
                &&& final(self).allocated(r as int)
                &&& forall|j: int| 0 <= j < r ==> old(self).allocated(j)
                &&& forall|j: int| j != r ==> final(self).allocated(j) == old(self).allocated(j)
            },
            r < 0 ==> {
                &&& r == -1
                &&& final(self).bitmap@ == old(self).bitmap@
                &&& old(self).all_allocated()
            },
    {
        let bytes = self.bitmap.len();
        let mut i: usize = 0;
        while i < bytes
            invariant
                self == old(self),
                self.wf(),
                i <= bytes,
                bytes == self.bitmap@.len(),
                forall|p: int| 0 <= p < i * 8 ==> self.allocated(p),
            decreases bytes - i,
        {
            let byteval = self.bitmap[i];
            if byteval != 0xff {
                let mut j: u8 = 0;
                while j < 8
                    invariant
                        self == old(self),
                        self.wf(),
                        i < bytes,
                        bytes == self.bitmap@.len(),
                        j <= 8,
                        byteval == self.bitmap@[i as int],
                        byteval != 0xff,
                        forall|p: int| 0 <= p < i * 8 ==> self.allocated(p),
                        forall|k: u8| k < j ==> nth_bit(byteval, k),
                    decreases 8 - j,
                {
                    if !test_bit(byteval, j) {
                        let idx: u64 = (i as u64) * 8 + (j as u64);
                        proof {
                            lemma_slot_of(i as int, j as int);
                            assert(idx < self.npages());
                            assert(forall|p: int| 0 <= p < idx ==> self.allocated(p)) by {
                                assert forall|p: int| 0 <= p < idx implies self.allocated(p) by {
                                    if p >= i * 8 {
                                        lemma_bit_slot(p);
                                        assert(p / 8 == i as int) by {
                                            lemma_fundamental_div_mod_converse(
                                                p,
                                                8,
                                                i as int,
                                                p - 8 * (i as int),
                                            );
                                        };
                                    }
                                }
                            };
                        }
                        self._addref(idx);
                        return idx as i32;
                    }
                    j = j + 1;
                }
                proof {
                    lemma_full_byte(byteval);
                }
                assert(false);
            }
            proof {
                assert forall|p: int| i * 8 <= p < (i + 1) * 8 implies self.allocated(p) by {
                    lemma_bit_slot(p);
                    assert(p / 8 == i as int && p % 8 == p - 8 * (i as int)) by {
                        lemma_fundamental_div_mod_converse(p, 8, i as int, p - 8 * (i as int));
                    };
                    let k = (p % 8) as u8;
                    assert(nth_bit(0xff, k)) by (bit_vector)
                        requires
                            k < 8,
                    ;
                }
            }
            i = i + 1;
        }
        -1
    }

    /// Allocate one page, returning its physical address or the sentinel.
    pub fn alloc_page(&mut self) -> (r: u64)
        requires
            old(self).wf(),
        ensures
            final(self).wf(),
            Self::alloc_post(*old(self), *final(self), r),
    {
        let idx = self.find_free();
        if idx < 0 {
            return u64::MAX;
        }
        let idx64 = idx as u64;
        proof {
            lemma_mul_strict_inequality(idx as int, self.npages(), 4096);
            lemma_fundamental_div_mod_converse(
                (self.startmem + idx64 * 4096) - self.startmem,
                4096,
                idx as int,
                0,
            );
        }
        let r = self.startmem + idx64 * 4096;
        proof {
            assert(r % 4096 == 0) by {
                lemma_fundamental_div_mod_converse(
                    r as int,
                    4096,
                    (self.startmem / 4096) + idx as int,
                    0,
                );
            };
        }
        r
    }

    /// Allocate one page and zero its contents through RAM.
    pub fn allocz(&mut self, ram: &mut Ram) -> (r: u64)
        requires
            old(self).wf(),
            old(ram).wf(),
            old(self).within(*old(ram)),
        ensures
            final(self).wf(),
            final(ram).wf(),
            final(ram).start == old(ram).start,
            final(ram).bytes@.len() == old(ram).bytes@.len(),
            Self::alloc_post(*old(self), *final(self), r),
            r != u64::MAX ==> forall|a: int| r <= a < r + 4096 ==> final(ram).byte_at(a) == 0,
            r == u64::MAX ==> final(ram).bytes@ == old(ram).bytes@,
            forall|a: int| old(ram).start <= a < old(ram).end() && !(r <= a < r + 4096)
                ==> final(ram).byte_at(a) == old(ram).byte_at(a),
    {
        let r = self.alloc_page();
        if r != u64::MAX {
            proof {
                lemma_mul_strict_inequality(old(self).page_index(r), self.npages(), 4096);
                lemma_fundamental_div_mod((r - self.startmem) as int, 4096);
            }
            ram.zero_page(r);
        }
        r
    }

    /// The tracked page range lies inside the given RAM window.
    pub open spec fn within(self, ram: Ram) -> bool {
        ram.start <= self.startmem && self.startmem + self.npages() * 4096 <= ram.end()
    }

    /// Release one previously allocated page. Double frees are the
    /// caller's bug and are excluded here rather than guarded.
    pub fn free(&mut self, addr: u64)
        requires
            old(self).wf(),
            old(self).valid_page_addr(addr),
            old(self).allocated(old(self).page_index(addr)),
        ensures
            final(self).wf(),
            Self::free_post(*old(self), *final(self), addr),
    {
        proof {
            lemma_fundamental_div_mod((addr - self.startmem) as int, 4096);
        }
        let page = (addr - self.startmem) / 4096;
        self._decref(page);
    }

    /// Pre-mark every page that overlaps `[from, to)` as taken.
    pub fn mark(&mut self, from: u64, to: u64)
        requires
            old(self).wf(),
            old(self).startmem <= from,
            from <= to,
            to as int <= old(self).startmem + old(self).npages() * 4096,
            to + 4095 <= u64::MAX,
        ensures
            final(self).wf(),
            Self::same_shape(*old(self), *final(self)),
            forall|j: int| #![trigger final(self).allocated(j)] 0 <= j < old(self).npages()
                ==> final(self).allocated(j) == (old(self).allocated(j)
                    || (adown(from as int) - old(self).startmem) / 4096 <= j
                        < (aup(to as int) - old(self).startmem) / 4096),
    {
        proof {
            lemma_pow2_4096();
        }
        let afrom = align_pow2_down(from, PHYS_PAGE_SIZE);
        let ato = align_pow2_up(to, PHYS_PAGE_SIZE);
        proof {
            lemma_fundamental_div_mod((afrom - self.startmem) as int, 4096);
            lemma_fundamental_div_mod((ato - self.startmem) as int, 4096);
        }
        let lo = (afrom - self.startmem) / 4096;
        let hi = (ato - self.startmem) / 4096;
        let mut p = lo;
        while p < hi
            invariant
                self.wf(),
                Self::same_shape(*old(self), *self),
                lo <= p <= hi || lo > hi,
                lo <= p,
                hi <= self.npages(),
                forall|j: int| #![trigger self.allocated(j)] 0 <= j < self.npages()
                    ==> self.allocated(j) == (old(self).allocated(j) || lo <= j < p),
            decreases hi - p,
        {
            self._addref(p);
            p = p + 1;
        }
    }


    /// Build the boot-time manager: the bitmap sits right after the image,
    /// and the first RAM page, the image pages and the bitmap's own pages
    /// come pre-marked allocated so they are never handed out. The
    /// bitmap covers whole bytes, so a trailing remainder of fewer than
    /// eight pages is not tracked and never handed out.
    pub fn init(ramaddr: u64, ramsize: u64, imgstart: u64, imgend: u64) -> (r: Pmm)
        requires
            ramaddr >= 4096,
            ramaddr % 4096 == 0,
            ramsize % 4096 == 0,
            ramsize >= 32768,
            ramaddr + ramsize <= 0x80_0000_0000,
            ramaddr <= imgstart <= imgend,
            aup(imgend as int) + aup((ramsize / 4096 / 8) as int) <= ramaddr + (ramsize / 4096 / 8)
                * 8 * 4096,
        ensures
            r.wf(),
            r.startmem == ramaddr,
            r.pages == (ramsize / 4096 / 8) * 8,
            r.npages() == (ramsize / 4096 / 8) * 8,
            r.bmaddr == aup(imgend as int),
            forall|j: int| #![trigger r.allocated(j)] 0 <= j < r.npages()
                ==> r.allocated(j) == (j == 0
                    || (adown(imgstart as int) - ramaddr) / 4096 <= j
                        < (aup(imgend as int) - ramaddr) / 4096
                    || (aup(imgend as int) - ramaddr) / 4096 <= j
                        < (aup(imgend as int) - ramaddr) / 4096
                            + aup((ramsize / 4096 / 8) as int) / 4096),
    {
        proof {
            lemma_pow2_4096();
        }
        let lenbytes = ramsize / 4096 / 8;
        let pages = lenbytes * 8;
        proof {
            assert(pages * 4096 <= ramsize) by (nonlinear_arith)
                requires
                    lenbytes == ramsize / 4096 / 8 && pages == lenbytes * 8
                        && ramsize / 4096 * 4096 <= ramsize && lenbytes * 8 <= ramsize / 4096,
            ;
            assert(ramsize / 4096 * 4096 <= ramsize) by {
                lemma_fundamental_div_mod(ramsize as int, 4096);
            };
            assert(lenbytes * 8 <= ramsize / 4096) by {
                lemma_fundamental_div_mod((ramsize / 4096) as int, 8);
            };
        }
        let mut bitmap: Vec<u8> = Vec::new();
        let mut i: u64 = 0;
        while i < lenbytes
            invariant
                i <= lenbytes,
                bitmap@.len() == i,
                forall|j: int| 0 <= j < i ==> bitmap@[j] == 0,
            decreases lenbytes - i,
        {
            bitmap.push(0);
            i = i + 1;
        }
        let rend = align_pow2_up(imgend, PHYS_PAGE_SIZE);
        proof {
            lemma_aligned_unique(rend as int, aup(imgend as int));
        }
        let mut pmm = Pmm { bitmap, startmem: ramaddr, pages, bmaddr: rend };
        proof {
            assert(pmm.npages() == pages);
            assert forall|j: int| 0 <= j < pmm.npages() implies !pmm.allocated(j) by {
                lemma_bit_slot(j);
                let b = pmm.bitmap@[j / 8];
                let k = (j % 8) as u8;
                assert(b == 0);
                assert(!nth_bit(0u8, k)) by (bit_vector);
            }
        }
        pmm.mark(ramaddr, ramaddr + 1);
        pmm.mark(imgstart, imgend);
        let bmbytes = align_pow2_up(lenbytes, PHYS_PAGE_SIZE);
        proof {
            lemma_aligned_unique(bmbytes as int, aup(lenbytes as int));
        }
        pmm.mark(rend, rend + bmbytes);
        pmm
    }

    /// Rebase the recorded bitmap location by the linear-mapping offset.
    pub fn lateinit(&mut self, linear: u64) -> (r: i32)
        requires
            old(self).bmaddr + linear <= u64::MAX,
        ensures
            r == 0,
            final(self).bmaddr == old(self).bmaddr + linear,
            final(self).bitmap@ == old(self).bitmap@,
            final(self).startmem == old(self).startmem,
            final(self).pages == old(self).pages,
    {
        self.bmaddr = self.bmaddr + linear;
        0
    }
}


/// Two multiples of the page size less than a page apart are equal.
proof fn lemma_aligned_unique(a: int, b: int)
    requires
        a % 4096 == 0,
        b % 4096 == 0,
        -4096 < a - b < 4096,
    ensures
        a == b,
{
    lemma_fundamental_div_mod(a, 4096);
    lemma_fundamental_div_mod(b, 4096);
    let qa = a / 4096;
    let qb = b / 4096;
    assert(a == 4096 * qa && b == 4096 * qb && -4096 < a - b < 4096 ==> qa == qb)
        by (nonlinear_arith);
}

/// Liveness of handed-out pages: while the first allocation is still
/// held, a second allocation never returns the same page.
pub proof fn lemma_alloc_distinct(s0: Pmm, s1: Pmm, s2: Pmm, a: u64, b: u64)
    requires
        Pmm::alloc_post(s0, s1, a),
        Pmm::alloc_post(s1, s2, b),
        a != u64::MAX,
        b != u64::MAX,
    ensures
        a != b,
{
    if a == b {
        assert(s1.allocated(s0.page_index(a)));
        assert(!s1.allocated(s1.page_index(b)));
    }
}

/// After `free(p)`, if every lower page is still held, the next
/// allocation legally returns `p` again.
pub proof fn lemma_alloc_after_free(s0: Pmm, s1: Pmm, s2: Pmm, p: u64, r: u64)
    requires
        s0.wf(),
        s0.valid_page_addr(p),
        Pmm::free_post(s0, s1, p),
        forall|j: int| 0 <= j < s0.page_index(p) ==> s1.allocated(j),
        Pmm::alloc_post(s1, s2, r),
    ensures
        r == p,
{
    let ip = s1.page_index(p);
    assert(ip == s0.page_index(p));
    assert(0 <= ip < s1.npages()) by {
        lemma_fundamental_div_mod((p - s0.startmem) as int, 4096);
    };
    assert(!s1.allocated(ip));
    assert(r != u64::MAX);
    let ir = s1.page_index(r);
    if ir < ip {
        assert(s1.allocated(ir));
        assert(false);
    }
    if ir > ip {
        assert(s1.allocated(ip));
        assert(false);
    }
    lemma_fundamental_div_mod((p - s0.startmem) as int, 4096);
    lemma_fundamental_div_mod((r - s1.startmem) as int, 4096);
}

/// Exhaustion is stable: once every page is allocated, allocation
/// returns the sentinel and leaves the manager unchanged, so it keeps
/// failing until something is freed.
pub proof fn lemma_alloc_exhausted(s0: Pmm, s1: Pmm, r: u64)
    requires
        s0.all_allocated(),
        Pmm::alloc_post(s0, s1, r),
    ensures
        r == u64::MAX,
        s1.bitmap@ == s0.bitmap@,
        s1.all_allocated(),
{
    if r != u64::MAX {
        let idx = s0.page_index(r);
        assert(0 <= idx) by {
            lemma_fundamental_div_mod((r - s0.startmem) as int, 4096);
        };
        assert(s0.allocated(idx));
        assert(false);
    }
    assert forall|i: int| 0 <= i < s1.npages() implies s1.allocated(i) by {
        assert(s0.allocated(i));
    }
}

/// Rounding up is unique: any 4 KiB multiple within a page of `v` is
/// its rounding.
pub proof fn lemma_aup_unique(v: int, r: int)
    requires
        0 <= v,
        r % 4096 == 0,
        v <= r < v + 4096,
    ensures
        r == aup(v),
{
    lemma_fundamental_div_mod(v, 4096);
    lemma_mod_bound(v, 4096);
    let a = aup(v);
    assert(a % 4096 == 0) by {
        lemma_mod_multiples_basic(v / 4096, 4096);
        if v % 4096 != 0 {
            lemma_mod_add_multiples_vanish((v - v % 4096), 4096);
        }
    };
    assert(v <= a < v + 4096);
    assert(r == 4096 * (r / 4096) && a == 4096 * (a / 4096)) by {
        lemma_fundamental_div_mod(r, 4096);
        lemma_fundamental_div_mod(a, 4096);
    };
    assert(r == a) by (nonlinear_arith)
        requires
            r == 4096 * (r / 4096) && a == 4096 * (a / 4096) && -4096 < r - a < 4096,
    ;
}

/// Page `i` occupies bit `i % 8` of byte `i / 8`.
proof fn lemma_bit_slot(i: int)
    requires
        i >= 0,
    ensures
        0 <= i % 8 < 8,
        i == 8 * (i / 8) + i % 8,
        0 <= i / 8,
{
    lemma_fundamental_div_mod(i, 8);
}

/// Two distinct pages sharing a bitmap byte use distinct bits.
proof fn lemma_slot_unique(a: int, b: int)
    requires
        a >= 0,
        b >= 0,
        a != b,
        a / 8 == b / 8,
    ensures
        a % 8 != b % 8,
{
    lemma_fundamental_div_mod(a, 8);
    lemma_fundamental_div_mod(b, 8);
}

/// Byte `i`, bit `j` is page `8 * i + j`.
proof fn lemma_slot_of(i: int, j: int)
    requires
        i >= 0,
        0 <= j < 8,
    ensures
        (8 * i + j) / 8 == i,
        (8 * i + j) % 8 == j,
{
    lemma_fundamental_div_mod_converse(8 * i + j, 8, i, j);
}

} // verus!
