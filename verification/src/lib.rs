//! A `dd`-style guarded block transfer library: a symlink-aware path
//! confinement resolver, a write/create policy guard built on it, a
//! byte-exact rechunking pipeline with bounded backpressure, and the
//! shared progress counters the pipeline roles mutate.
use vstd::prelude::*;

pub mod chunk;
pub mod expand;
pub mod paths;
pub mod pipeline;
pub mod policy;
pub mod resolve;

verus! {

/// A zeroed buffer of the requested length, as handed to each source read.
pub fn new_buff(len: usize) -> (r: Vec<u8>)
    ensures
        r@ == Seq::new(len as nat, |i: int| 0u8),
{
    let mut v: Vec<u8> = Vec::new();
    let mut i: usize = 0;
    while i < len
        invariant
            i <= len,
            v@ == Seq::new(i as nat, |j: int| 0u8),
        decreases len - i,
    {
        v.push(0u8);
        i = i + 1;
        proof {
            assert(v@ =~= Seq::new(i as nat, |j: int| 0u8));
        }
    }
    v
}

} // verus!
