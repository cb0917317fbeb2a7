use vstd::prelude::*;

verus! {

/// The requested size of an allocation.
pub struct AddrMeta {
    pub(crate) size: u64,
}

impl AddrMeta {
    pub closed spec fn spec_size(&self) -> u64 {
        self.size
    }

    pub fn new(size: u64) -> (meta: AddrMeta)
        ensures
            meta.spec_size() == size,
    {
        AddrMeta { size }
    }
}

} // verus!
