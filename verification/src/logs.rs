//! The computable part of log capture: a log request returns a bounded
//! tail of each captured stream. Reading the files and handing their bytes
//! in is the caller's business.

use vstd::prelude::*;

verus! {

/// What a bounded tail holds: the whole buffer when it fits the limit,
/// else exactly the last `limit` bytes.
pub open spec fn tail_of(buf: Seq<u8>, limit: int) -> Seq<u8> {
    if buf.len() <= limit {
        buf
    } else {
        buf.subrange(buf.len() - limit, buf.len() as int)
    }
}

/// The last `limit` bytes of a captured stream, or all of it when it is
/// shorter.
pub fn tail_bytes(buf: &Vec<u8>, limit: usize) -> (r: Vec<u8>)
    ensures
        r@ == tail_of(buf@, limit as int),
{
    let n = buf.len();
    let start: usize = if n > limit {
        n - limit
    } else {
        0
    };
    let mut out: Vec<u8> = Vec::new();
    let mut i: usize = start;
    while i < n
        invariant
            start <= i <= n,
            n == buf@.len(),
            out@ == buf@.subrange(start as int, i as int),
        decreases n - i,
    {
        out.push(buf[i]);
        proof {
            assert(buf@.subrange(start as int, i + 1 as int) =~= buf@.subrange(
                start as int,
                i as int,
            ).push(buf@[i as int]));
        }
        i += 1;
    }
    proof {
        if n <= limit {
            assert(buf@.subrange(0, n as int) =~= buf@);
        }
    }
    out
}

} // verus!
