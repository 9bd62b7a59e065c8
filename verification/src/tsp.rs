//! The test-secure-payload dispatcher convention: fixed completion
//! codes written into the register file, plus a demonstration
//! arithmetic service.

use vstd::prelude::*;
use crate::serial::Console;

verus! {

/// Owning service range of this convention.
pub const SVCID: u64 = 0x32;

pub const ENTRY_DONE: u64 = 0xf2000000;

pub const ON_DONE: u64 = 0xf2000001;

pub const OFF_DONE: u64 = 0xf2000002;

pub const SUSPEND_DONE: u64 = 0xf2000003;

pub const RESUME_DONE: u64 = 0xf2000004;

pub const SYSTEM_OFF_DONE: u64 = 0xf2000008;

pub const SYSTEM_RESET_DONE: u64 = 0xf2000009;

pub const FNID_ADD: u64 = 0x2000;

pub const FNID_SUB: u64 = 0x2001;

pub const FNID_MUL: u64 = 0x2002;

pub const FNID_DIV: u64 = 0x2003;

/// The arithmetic service's answer, wrapping like the machine does.
pub open spec fn spec_result(func: u64, a: u64, b: u64) -> u64 {
    if func == FNID_ADD {
        ((a + b) % 0x1_0000_0000_0000_0000) as u64
    } else if func == FNID_SUB {
        (if a >= b {
            a - b
        } else {
            a - b + 0x1_0000_0000_0000_0000
        }) as u64
    } else if func == FNID_MUL {
        ((a * b) % 0x1_0000_0000_0000_0000) as u64
    } else if func == FNID_DIV {
        if b == 0 {
            0
        } else {
            (a / b) as u64
        }
    } else {
        u64::MAX
    }
}

/// The demonstration arithmetic service. Division by zero is a fatal
/// condition under the fail-stop policy; the second component says so.
pub fn smc_handler(con: &mut Console, func: u64, args: &mut [u64; 8]) -> (r: (u64, bool))
    ensures
        r.0 == 0,
        r.1 == (func == FNID_DIV && old(args)[2] == 0),
        !r.1 ==> {
            &&& final(args)[0] == old(args)[0]
            &&& final(args)[1] == spec_result(func, old(args)[1], old(args)[2])
            &&& final(args)[2] == 0
            &&& final(args)[3] == 0
            &&& forall|i: int| 4 <= i < 8 ==> final(args)[i] == old(args)[i]
        },
        r.1 ==> final(args)@ == old(args)@,
{
    let a = args[1];
    let b = args[2];
    let res: u64;
    if func == FNID_ADD {
        res = a.wrapping_add(b);
    } else if func == FNID_SUB {
        res = a.wrapping_sub(b);
    } else if func == FNID_MUL {
        res = a.wrapping_mul(b);
        proof {
            assert(a.wrapping_mul(b) == ((a * b) % 0x1_0000_0000_0000_0000) as u64) by {
                vstd::arithmetic::div_mod::lemma_mod_bound(
                    (a * b) as int,
                    0x1_0000_0000_0000_0000,
                );
                vstd::arithmetic::div_mod::lemma_fundamental_div_mod(
                    (a * b) as int,
                    0x1_0000_0000_0000_0000,
                );
            };
        }
    } else if func == FNID_DIV {
        if b == 0 {
            // fail-stop: an unguarded division fault
            return (0, true);
        }
        res = a / b;
    } else {
        crate::log::info(con, "Invalid function called");
        res = u64::MAX;
    }
    args[1] = res;
    args[2] = 0;
    args[3] = 0;
    (0, false)
}

pub fn cpu_off(args: &mut [u64; 8])
    ensures
        final(args)[0] == OFF_DONE,
        forall|i: int| 1 <= i < 8 ==> final(args)[i] == old(args)[i],
{
    args[0] = OFF_DONE;
}

pub fn cpu_suspend(args: &mut [u64; 8])
    ensures
        final(args)[0] == SUSPEND_DONE,
        forall|i: int| 1 <= i < 8 ==> final(args)[i] == old(args)[i],
{
    args[0] = SUSPEND_DONE;
}

pub fn cpu_resume(args: &mut [u64; 8])
    ensures
        final(args)[0] == RESUME_DONE,
        forall|i: int| 1 <= i < 8 ==> final(args)[i] == old(args)[i],
{
    args[0] = RESUME_DONE;
}

pub fn system_off(args: &mut [u64; 8])
    ensures
        final(args)[0] == SYSTEM_OFF_DONE,
        forall|i: int| 1 <= i < 8 ==> final(args)[i] == old(args)[i],
{
    args[0] = SYSTEM_OFF_DONE;
}

pub fn system_reset(args: &mut [u64; 8])
    ensures
        final(args)[0] == SYSTEM_RESET_DONE,
        forall|i: int| 1 <= i < 8 ==> final(args)[i] == old(args)[i],
{
    args[0] = SYSTEM_RESET_DONE;
}

pub fn cpu_on(args: &mut [u64; 8])
    ensures
        final(args)[0] == ON_DONE,
        forall|i: int| 1 <= i < 8 ==> final(args)[i] == old(args)[i],
{
    args[0] = ON_DONE;
}

/// This convention has no service-return path: reaching it is fatal.
pub fn smc_return(_func: u64, _ret: u64) -> (r: bool)
    ensures
        r,
{
    true
}

} // verus!
