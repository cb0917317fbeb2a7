use vstd::prelude::*;

verus! {

/// Holds the allocator that serves the metadata's own memory.
pub struct MetaAllocWrapper<MA> {
    pub allocator: MA,
}

impl<MA> MetaAllocWrapper<MA> {
    pub fn new(allocator: MA) -> (w: MetaAllocWrapper<MA>)
        ensures
            w.allocator == allocator,
    {
        MetaAllocWrapper { allocator }
    }
}

} // verus!
