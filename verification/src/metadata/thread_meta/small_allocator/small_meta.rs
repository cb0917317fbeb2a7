use vstd::prelude::*;

verus! {

/// What is kept of a live small allocation: the requested size (the bytes
/// reserved may be more, up to the next alignment) and the start of the pool
/// it was carved from, which stays mapped while the allocation lives.
#[derive(Clone, Copy, Debug, PartialEq, Eq)]
pub struct SmallMeta {
    pub size: u64,
    pub pool: u64,
}

impl SmallMeta {
    pub fn new(size: u64, pool: u64) -> (meta: SmallMeta)
        ensures
            meta.size == size,
            meta.pool == pool,
    {
        SmallMeta { size, pool }
    }
}

}
