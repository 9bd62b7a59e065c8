//! Byte-addressed models of the two memory worlds the monitor touches:
//! secure RAM, which the monitor reads and writes, and normal-world RAM,
//! which it only reads while staging buffers in.

use vstd::prelude::*;
use vstd::string::StringSliceAdditionalSpecFns;

verus! {

/// Secure RAM: a contiguous physical range starting at `start`.
pub struct Ram {
    pub start: u64,
    pub bytes: Vec<u8>,
}

impl Ram {
    pub open spec fn wf(self) -> bool {
        &&& self.start % 4096 == 0
        &&& self.bytes@.len() % 4096 == 0
        &&& self.start + self.bytes@.len() <= 0x80_0000_0000
    }

    pub open spec fn end(self) -> int {
        self.start + self.bytes@.len()
    }

    pub open spec fn in_range(self, addr: u64, len: u64) -> bool {
        self.start <= addr && addr + len <= self.end()
    }

    /// The byte stored at physical address `addr`.
    pub open spec fn byte_at(self, addr: int) -> u8 {
        self.bytes@[addr - self.start]
    }

    pub fn new(start: u64, len: u64) -> (r: Ram)
        requires
            start % 4096 == 0,
            len % 4096 == 0,
            start + len <= 0x80_0000_0000,
        ensures
            r.wf(),
            r.start == start,
            r.bytes@.len() == len,
            forall|a: int| start <= a < start + len ==> r.byte_at(a) == 0,
    {
        let mut bytes: Vec<u8> = Vec::new();
        let mut i: u64 = 0;
        while i < len
            invariant
                i <= len,
                bytes@.len() == i,
                forall|j: int| 0 <= j < i ==> bytes@[j] == 0,
            decreases len - i,
        {
            bytes.push(0);
            i = i + 1;
        }
        Ram { start, bytes }
    }

    pub fn read_u8(&self, addr: u64) -> (r: u8)
        requires
            self.wf(),
            self.in_range(addr, 1),
        ensures
            r == self.byte_at(addr as int),
    {
        let off = addr - self.start;
        // the length bounds the offset within the address space
        let n = self.bytes.len();
        self.bytes[off as usize]
    }

    pub fn write_u8(&mut self, addr: u64, v: u8)
        requires
            old(self).wf(),
            old(self).in_range(addr, 1),
        ensures
            final(self).wf(),
            final(self).start == old(self).start,
            final(self).bytes@.len() == old(self).bytes@.len(),
            final(self).byte_at(addr as int) == v,
            forall|a: int| old(self).start <= a < old(self).end() && a != addr
                ==> final(self).byte_at(a) == old(self).byte_at(a),
    {
        let off = addr - self.start;
        // the length bounds the offset within the address space
        let n = self.bytes.len();
        self.bytes.set(off as usize, v);
    }

    /// Zero-fill one whole page, leaving every other byte untouched.
    pub fn zero_page(&mut self, page: u64)
        requires
            old(self).wf(),
            page % 4096 == 0,
            old(self).in_range(page, 4096),
        ensures
            final(self).wf(),
            final(self).start == old(self).start,
            final(self).bytes@.len() == old(self).bytes@.len(),
            forall|a: int| page <= a < page + 4096 ==> final(self).byte_at(a) == 0,
            forall|a: int| old(self).start <= a < old(self).end() && !(page <= a < page + 4096)
                ==> final(self).byte_at(a) == old(self).byte_at(a),
    {
        let mut i: u64 = 0;
        while i < 4096
            invariant
                i <= 4096,
                self.wf(),
                self.start == old(self).start,
                self.bytes@.len() == old(self).bytes@.len(),
                old(self).in_range(page, 4096),
                forall|a: int| page <= a < page + i ==> self.byte_at(a) == 0,
                forall|a: int| self.start <= a < self.end() && !(page <= a < page + i)
                    ==> self.byte_at(a) == old(self).byte_at(a),
            decreases 4096 - i,
        {
            self.write_u8(page + i, 0);
            i = i + 1;
        }
    }

    /// Copy `len` bytes out of normal-world memory into secure RAM.
    pub fn copy_from_ns(&mut self, dst: u64, ns: &NsRam, src: u64, len: u64)
        requires
            old(self).wf(),
            ns.wf(),
            old(self).in_range(dst, len),
            ns.in_range(src, len),
        ensures
            final(self).wf(),
            final(self).start == old(self).start,
            final(self).bytes@.len() == old(self).bytes@.len(),
            forall|i: int| 0 <= i < len
                ==> #[trigger] final(self).byte_at(dst + i) == ns.byte_at(src + i),
            forall|a: int| old(self).start <= a < old(self).end() && !(dst <= a < dst + len)
                ==> final(self).byte_at(a) == old(self).byte_at(a),
    {
        let mut i: u64 = 0;
        while i < len
            invariant
                i <= len,
                self.wf(),
                self.start == old(self).start,
                self.bytes@.len() == old(self).bytes@.len(),
                old(self).in_range(dst, len),
                ns.wf(),
                ns.in_range(src, len),
                forall|j: int| 0 <= j < i
                    ==> #[trigger] self.byte_at(dst + j) == ns.byte_at(src + j),
                forall|a: int| self.start <= a < self.end() && !(dst <= a < dst + i)
                    ==> self.byte_at(a) == old(self).byte_at(a),
            decreases len - i,
        {
            let v = ns.read_u8(src + i);
            self.write_u8(dst + i, v);
            i = i + 1;
        }
    }
}

/// Normal-world RAM as the monitor sees it: a read-only byte window.
pub struct NsRam {
    pub start: u64,
    pub bytes: Vec<u8>,
}

impl NsRam {
    pub open spec fn wf(self) -> bool {
        self.start + self.bytes@.len() <= 0x8000_0000_0000_0000
    }

    pub open spec fn end(self) -> int {
        self.start + self.bytes@.len()
    }

    pub open spec fn in_range(self, addr: u64, len: u64) -> bool {
        self.start <= addr && addr + len <= self.end()
    }

    pub open spec fn byte_at(self, addr: int) -> u8 {
        self.bytes@[addr - self.start]
    }

    pub fn read_u8(&self, addr: u64) -> (r: u8)
        requires
            self.wf(),
            self.in_range(addr, 1),
        ensures
            r == self.byte_at(addr as int),
    {
        let off = addr - self.start;
        // the length bounds the offset within the address space
        let n = self.bytes.len();
        self.bytes[off as usize]
    }
}

/// Compare a byte string against the head of `s`, returning how many
/// characters of `s` match from position `start` on.
pub fn bytesequals(data: &Vec<u8>, cmp: &Vec<u8>, start: usize) -> (r: usize)
    requires
        start <= cmp@.len(),
    ensures
        start + r <= cmp@.len(),
        r <= data@.len(),
        forall|j: int| 0 <= j < r ==> data@[j] == cmp@[start + j],
{
    let mut count: usize = start;
    let mut i: usize = 0;
    loop
        invariant
            count == start + i,
            i <= data@.len(),
            count <= cmp@.len(),
            start <= cmp@.len(),
            forall|j: int| 0 <= j < i ==> data@[j] == cmp@[start + j],
        decreases data@.len() - i,
    {
        if i >= data.len() || count >= cmp.len() {
            return i;
        }
        if data[i] != cmp[count] {
            return i;
        }
        i = i + 1;
        count = count + 1;
    }
}


/// How many characters of `s` the byte string matches, from its start.
pub fn strequals(data: &Vec<u8>, s: &str) -> (r: usize)
    ensures
        r <= s@.len() || r <= data@.len(),
        forall|j: int| 0 <= j < r ==> data@[j] == s.spec_bytes()[j],
{
    let bs = s.as_bytes();
    let n = bs.len();
    let mut i: usize = 0;
    loop
        invariant
            i <= n,
            n == bs@.len(),
            bs@ == s.spec_bytes(),
            i <= data@.len(),
            forall|j: int| 0 <= j < i ==> data@[j] == bs@[j],
        decreases n - i,
    {
        if i >= data.len() || i >= n {
            return i;
        }
        if data[i] != bs[i] {
            return i;
        }
        i = i + 1;
    }
}

} // verus!
