use vstd::prelude::*;

verus! {

/// Holds the allocator that serves the metadata's own memory.
pub struct AllocatorWrapper<GA> {
    pub allocator: GA,
}

impl<GA> AllocatorWrapper<GA> {
    pub fn new(allocator: GA) -> (w: AllocatorWrapper<GA>)
        ensures
            w.allocator == allocator,
    {
        AllocatorWrapper { allocator }
    }

    pub fn wrapped_allocator(&self) -> (r: &GA)
        ensures
            *r == self.allocator,
    {
        &self.allocator
    }
}

} // verus!
