use vstd::prelude::*;

verus! {

/// What is kept of a live allocation: its requested size (the bytes reserved
/// may be more, up to the next alignment) and, for a small one, the start of
/// the pool it was carved from.
#[derive(Clone, Copy, Debug, PartialEq, Eq)]
pub enum AddrMeta {
    SmallMeta { size: u64, pool: u64 },
    LargeMeta { size: u64 },
}

impl AddrMeta {
    pub fn new_small(size: u64, pool: u64) -> (meta: AddrMeta)
        ensures
            meta == (AddrMeta::SmallMeta { size, pool }),
    {
        AddrMeta::SmallMeta { size, pool }
    }

    pub fn new_large(size: u64) -> (meta: AddrMeta)
        ensures
            meta == (AddrMeta::LargeMeta { size }),
    {
        AddrMeta::LargeMeta { size }
    }
}

} // verus!
