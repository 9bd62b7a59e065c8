//! Console output modelled as an explicit byte sink.

use vstd::prelude::*;
use vstd::string::StringSliceAdditionalSpecFns;

verus! {

/// The diagnostic console: everything written so far, in order.
pub struct Console {
    pub out: Vec<u8>,
}

impl Console {
    pub fn new() -> (r: Console)
        ensures
            r.out@.len() == 0,
    {
        Console { out: Vec::new() }
    }
}

/// Emit one byte on the console.
pub fn putc(con: &mut Console, c: u8)
    ensures
        final(con).out@ == old(con).out@.push(c),
{
    con.out.push(c);
}

/// Emit a whole string on the console.
pub fn write(con: &mut Console, buf: &str)
    ensures
        final(con).out@ == old(con).out@ + buf.spec_bytes(),
{
    let bs = buf.as_bytes();
    let n = bs.len();
    let mut i: usize = 0;
    while i < n
        invariant
            i <= n,
            n == bs@.len(),
            bs@ == buf.spec_bytes(),
            con.out@ == old(con).out@ + bs@.subrange(0, i as int),
        decreases n - i,
    {
        con.out.push(bs[i]);
        proof {
            assert(con.out@ =~= old(con).out@ + bs@.subrange(0, i + 1));
        }
        i = i + 1;
    }
    proof {
        assert(bs@.subrange(0, n as int) =~= bs@);
    }
}

} // verus!
