use vstd::prelude::*;

use crate::metadata::thread_meta::small_allocator::pool::Pool;

verus! {

/// A size class of the small allocator and the pool it currently carves from.
pub struct Bin {
    pub pool: Pool,
}

impl Bin {
    pub fn new(pool: Pool) -> (bin: Bin)
        ensures
            bin.pool == pool,
    {
        Bin { pool }
    }
}

}
