use vstd::prelude::*;

verus! {

/// A change to the process's memory map that the allocator asks its host to
/// carry out, in the order in which the allocator issues them.
#[derive(Clone, Copy, Debug, PartialEq, Eq)]
pub enum MmanOp {
    /// Map `size` fresh zeroed bytes, readable and writable, at `addr`.
    Mmap { addr: u64, size: u64 },
    /// Give back the `size` bytes mapped at `addr`.
    Munmap { addr: u64, size: u64 },
}

}
