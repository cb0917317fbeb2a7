use vstd::prelude::*;

use crate::metadata::thread_meta::small_allocator::pool::Pool;

verus! {

/// A size class, by the largest request it is meant for, and the pool it
/// currently carves from.
pub struct Bin {
    pub max_size: u64,
    pub pool: Pool,
}

impl Bin {
    pub fn new(max_size: u64, pool: Pool) -> (bin: Bin)
        ensures
            bin.max_size == max_size,
            bin.pool == pool,
    {
        Bin { max_size, pool }
    }
}

} // verus!
