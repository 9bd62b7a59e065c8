//! The OP-TEE-style dispatcher convention: completion codes are fast
//! 32-bit call identifiers owned by this service range, and service
//! returns go back as an explicit completion call.

use vstd::prelude::*;
use crate::serial::Console;

verus! {

/// Owning service range of this convention.
pub const SVCID: u64 = 0x3e;

pub const ENTRY_DONE: u64 = (1 << 31) | (0x3e << 24) | 0x00;

pub const ON_DONE: u64 = (1 << 31) | (0x3e << 24) | 0x01;

pub const OFF_DONE: u64 = (1 << 31) | (0x3e << 24) | 0x02;

pub const SUSPEND_DONE: u64 = (1 << 31) | (0x3e << 24) | 0x03;

pub const RESUME_DONE: u64 = (1 << 31) | (0x3e << 24) | 0x04;

pub const CALL_DONE: u64 = (1 << 31) | (0x3e << 24) | 0x05;

pub const FIQ_DONE: u64 = (1 << 31) | (0x3e << 24) | 0x06;

pub const SYSTEM_OFF_DONE: u64 = (1 << 31) | (0x3e << 24) | 0x07;

pub const SYSTEM_RESET_DONE: u64 = (1 << 31) | (0x3e << 24) | 0x08;

pub const FNID_LOG: u64 = 1;

/// The minimal direct service of this convention.
pub fn smc_handler(con: &mut Console, func: u64, args: &mut [u64; 8]) -> (r: u64)
    ensures
        r == 0,
        final(args)[0] == CALL_DONE,
        final(args)[1] == (if func == FNID_LOG { 0u64 } else { u64::MAX }),
        forall|i: int| 2 <= i < 8 ==> final(args)[i] == old(args)[i],
{
    crate::log::info(con, "smc optee called");
    let res: u64;
    if func == FNID_LOG {
        res = 0;
    } else {
        crate::log::info(con, "optee: invalid function called");
        res = u64::MAX;
    }
    args[0] = CALL_DONE;
    args[1] = res;
    0
}

/// A service return under this convention is a completion call back to
/// the calling firmware: {code, value, 0, 0}.
pub fn smc_return(_func: u64, ret: u64) -> (r: (u64, u64, u64, u64))
    ensures
        r == (CALL_DONE, ret, 0u64, 0u64),
{
    (CALL_DONE, ret, 0, 0)
}

pub fn cpu_off(args: &mut [u64; 8])
    ensures
        final(args)[0] == OFF_DONE,
        forall|i: int| 1 <= i < 8 ==> final(args)[i] == old(args)[i],
{
    args[0] = OFF_DONE;
}

pub fn cpu_suspend(args: &mut [u64; 8])
    ensures
        final(args)[0] == SUSPEND_DONE,
        forall|i: int| 1 <= i < 8 ==> final(args)[i] == old(args)[i],
{
    args[0] = SUSPEND_DONE;
}

pub fn cpu_resume(args: &mut [u64; 8])
    ensures
        final(args)[0] == RESUME_DONE,
        forall|i: int| 1 <= i < 8 ==> final(args)[i] == old(args)[i],
{
    args[0] = RESUME_DONE;
}

pub fn system_off(args: &mut [u64; 8])
    ensures
        final(args)[0] == SYSTEM_OFF_DONE,
        forall|i: int| 1 <= i < 8 ==> final(args)[i] == old(args)[i],
{
    args[0] = SYSTEM_OFF_DONE;
}

pub fn system_reset(args: &mut [u64; 8])
    ensures
        final(args)[0] == SYSTEM_RESET_DONE,
        forall|i: int| 1 <= i < 8 ==> final(args)[i] == old(args)[i],
{
    args[0] = SYSTEM_RESET_DONE;
}

pub fn cpu_on(args: &mut [u64; 8])
    ensures
        final(args)[0] == ON_DONE,
        final(args)[1] == 0,
        forall|i: int| 2 <= i < 8 ==> final(args)[i] == old(args)[i],
{
    args[0] = ON_DONE;
    args[1] = 0;
}

pub fn fiq_entry(args: &mut [u64; 8])
    ensures
        final(args)[0] == FIQ_DONE,
        forall|i: int| 1 <= i < 8 ==> final(args)[i] == old(args)[i],
{
    args[0] = FIQ_DONE;
}

} // verus!
