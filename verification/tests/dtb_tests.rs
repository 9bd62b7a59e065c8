//! Device-tree property decoding.

use bl32::dtb::{FdtProp, be32, interpret_as_reg, get_secure_memory, get_as_reg};
use bl32::memory::{strequals, bytesequals};

fn prop(addr_cells: u32, size_cells: u32, data: Vec<u8>) -> FdtProp {
    FdtProp { size_cells, addr_cells, data, status: Vec::new() }
}

#[test]
fn be_cells() {
    let d = vec![0x0e, 0x10, 0x00, 0x00, 0x00, 0xf0, 0x00, 0x00];
    assert_eq!(be32(&d, 0), 0x0e10_0000);
    assert_eq!(be32(&d, 4), 0x00f0_0000);
}

#[test]
fn reg_two_by_two_cells() {
    // address 0x1_0e10_0000, size 0xf0_0000
    let d = vec![0, 0, 0, 1, 0x0e, 0x10, 0, 0, 0, 0, 0, 0, 0, 0xf0, 0, 0];
    let p = prop(2, 2, d);
    let (a, s) = interpret_as_reg(&p);
    assert_eq!(a, 0x1_0e10_0000);
    assert_eq!(s, 0xf0_0000);
}

#[test]
fn reg_one_by_one_cells() {
    let d = vec![0x0e, 0x10, 0, 0, 0, 0xf0, 0, 0];
    let p = prop(1, 1, d);
    let (a, s) = get_secure_memory(&Some(p));
    assert_eq!(a, 0x0e10_0000);
    assert_eq!(s, 0x00f0_0000);
}

#[test]
fn reg_malformed_is_sentinel() {
    let p = prop(2, 2, vec![0, 0, 0, 1]);
    assert_eq!(interpret_as_reg(&p), (u64::MAX, u64::MAX));
    assert_eq!(get_as_reg(&None), (u64::MAX, u64::MAX));
}

#[test]
fn string_matching() {
    let name = b"#size-cells".to_vec();
    assert_eq!(strequals(&name, "#size-cells"), 11);
    assert_eq!(strequals(&name, "#address-cells"), 1);
    assert_eq!(bytesequals(&name, &b"xx#size-cells".to_vec(), 2), 11);
    let disabled = b"disabled".to_vec();
    assert_eq!(strequals(&disabled, "disabled"), 8);
    assert_eq!(strequals(&disabled, "okay"), 0);
}
