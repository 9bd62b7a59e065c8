//! Decoding of flattened-device-tree property data: big-endian cells
//! carried as plain bytes. The tree walk itself is a boot-time
//! collaborator outside this core; it hands properties in as byte
//! strings.

use vstd::prelude::*;

verus! {

pub const SIZE_CELL_DEFAULT: u32 = 1;

pub const ADDR_CELL_DEFAULT: u32 = 2;

/// One found property: the cell widths in force where it was found,
/// its raw data, and its status string if one was present.
pub struct FdtProp {
    pub size_cells: u32,
    pub addr_cells: u32,
    pub data: Vec<u8>,
    pub status: Vec<u8>,
}

/// A big-endian 32-bit cell.
pub open spec fn spec_be32(data: Seq<u8>, off: int) -> int {
    data[off] * 0x100_0000 + data[off + 1] * 0x1_0000 + data[off + 2] * 0x100 + data[off + 3]
}

/// Read one big-endian cell out of property data.
pub fn be32(data: &Vec<u8>, off: usize) -> (r: u64)
    requires
        off + 4 <= data@.len(),
    ensures
        r == spec_be32(data@, off as int),
        r < 0x1_0000_0000,
{
    // the length bounds the cell offsets within the address space
    let n = data.len();
    let b0 = data[off] as u64;
    let b1 = data[off + 1] as u64;
    let b2 = data[off + 2] as u64;
    let b3 = data[off + 3] as u64;
    b0 * 0x100_0000 + b1 * 0x1_0000 + b2 * 0x100 + b3
}

/// The (address, size) pair a `reg` property encodes, under the cell
/// widths in force.
pub open spec fn spec_reg(p: FdtProp) -> (u64, u64) {
    let addr: int = if p.addr_cells == 2 {
        spec_be32(p.data@, 0) * 0x1_0000_0000 + spec_be32(p.data@, 4)
    } else {
        spec_be32(p.data@, 0)
    };
    let off = p.addr_cells as int * 4;
    let size: int = if p.size_cells == 2 {
        spec_be32(p.data@, off) * 0x1_0000_0000 + spec_be32(p.data@, off + 4)
    } else {
        spec_be32(p.data@, off)
    };
    (addr as u64, size as u64)
}

/// Whether a property has exactly the cells a `reg` needs.
pub open spec fn reg_shaped(p: FdtProp) -> bool {
    &&& (p.addr_cells == 1 || p.addr_cells == 2)
    &&& (p.size_cells == 1 || p.size_cells == 2)
    &&& p.data@.len() == (p.addr_cells + p.size_cells) * 4
}

/// Interpret a property as a `reg` entry: its address cells then its
/// size cells, each big-endian. Malformed data yields the sentinels.
pub fn interpret_as_reg(prop: &FdtProp) -> (r: (u64, u64))
    ensures
        reg_shaped(*prop) ==> r == spec_reg(*prop),
        !reg_shaped(*prop) ==> r == (u64::MAX, u64::MAX),
{
    if !(prop.addr_cells == 1 || prop.addr_cells == 2) || !(prop.size_cells == 1
        || prop.size_cells == 2) {
        return (u64::MAX, u64::MAX);
    }
    let want = ((prop.addr_cells + prop.size_cells) * 4) as usize;
    if prop.data.len() != want {
        return (u64::MAX, u64::MAX);
    }
    let mut curr: usize = 0;
    let mut addr = be32(&prop.data, curr);
    curr = curr + 4;
    if prop.addr_cells == 2 {
        addr = addr * 0x1_0000_0000 + be32(&prop.data, curr);
        curr = curr + 4;
    }
    let mut size = be32(&prop.data, curr);
    curr = curr + 4;
    if prop.size_cells == 2 {
        size = size * 0x1_0000_0000 + be32(&prop.data, curr);
    }
    (addr, size)
}

/// The secure-RAM base and size, from the platform's `reg` property
/// for the secure memory node; sentinels when it is missing or
/// malformed.
pub fn get_secure_memory(prop: &Option<FdtProp>) -> (r: (u64, u64))
    ensures
        match prop {
            Some(p) => (reg_shaped(*p) ==> r == spec_reg(*p)) && (!reg_shaped(*p) ==> r == (
            u64::MAX, u64::MAX )),
            None => r == (u64::MAX, u64::MAX),
        },
{
    match prop {
        Some(p) => interpret_as_reg(p),
        None => (u64::MAX, u64::MAX),
    }
}

/// The `reg` pair of an arbitrary found property, by the same rules.
pub fn get_as_reg(prop: &Option<FdtProp>) -> (r: (u64, u64))
    ensures
        match prop {
            Some(p) => (reg_shaped(*p) ==> r == spec_reg(*p)) && (!reg_shaped(*p) ==> r == (
            u64::MAX, u64::MAX )),
            None => r == (u64::MAX, u64::MAX),
        },
{
    match prop {
        Some(p) => interpret_as_reg(p),
        None => (u64::MAX, u64::MAX),
    }
}

} // verus!
