//! Diagnostic logging: tagged lines on the console byte sink.

use vstd::prelude::*;
use vstd::string::StringSliceAdditionalSpecFns;
use crate::serial::{Console, putc};

verus! {

/// Informational message.
pub fn info(con: &mut Console, buf: &str)
    ensures
        final(con).out@ == old(con).out@ + "I: ".spec_bytes() + buf.spec_bytes() + seq![10u8],
{
    crate::serial::write(con, "I: ");
    crate::serial::write(con, buf);
    putc(con, 10);
}

/// Debug message.
pub fn debug(con: &mut Console, buf: &str)
    ensures
        final(con).out@ == old(con).out@ + "D: ".spec_bytes() + buf.spec_bytes() + seq![10u8],
{
    crate::serial::write(con, "D: ");
    crate::serial::write(con, buf);
    putc(con, 10);
}

/// A condition that indicates a bug in monitor or caller code.
pub fn bug(con: &mut Console, buf: &str)
    ensures
        final(con).out@ == old(con).out@ + "BUG: ".spec_bytes() + buf.spec_bytes() + seq![10u8],
{
    crate::serial::write(con, "BUG: ");
    crate::serial::write(con, buf);
    putc(con, 10);
}

} // verus!
