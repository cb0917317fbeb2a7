use vstd::prelude::*;

use crate::utils::consts::{POOL_SIZE, STANDARD_ALIGN};
use crate::utils::mman_ops::MmanOp;
use crate::utils::{align_up, align_up_spec, lemma_align_consts_pow2};

verus! {

/// A region of `POOL_SIZE` bytes handed out by bumping a pointer, which
/// reports how much it has left when a request does not fit.
pub struct Pool {
    start_addr: u64,
    end_addr: u64,  // open endpoint
    next_addr: u64,
}

/// A request did not fit in a pool: `allocated` bytes were left from `addr`.
#[derive(Clone, Copy, Debug, PartialEq, Eq)]
pub struct PoolAllocError {
    pub addr: u64,
    pub allocated: u64,
}

impl PoolAllocError {
    fn new(addr: u64, allocated: u64) -> (e: PoolAllocError)
        ensures
            e.addr == addr,
            e.allocated == allocated,
    {
        PoolAllocError { addr, allocated }
    }
}

impl Pool {
    pub closed spec fn spec_start(&self) -> u64 {
        self.start_addr
    }

    pub closed spec fn spec_end(&self) -> u64 {
        self.end_addr
    }

    /// The first byte that has not been handed out yet.
    pub closed spec fn spec_next(&self) -> u64 {
        self.next_addr
    }

    pub fn new(start_addr: u64) -> (pool: Pool)
        requires
            start_addr + POOL_SIZE <= u64::MAX,
        ensures
            pool.spec_start() == start_addr,
            pool.spec_end() == start_addr + POOL_SIZE,
            pool.spec_next() == start_addr,
    {
        Pool { start_addr, end_addr: start_addr + POOL_SIZE, next_addr: start_addr }
    }

    /// Gives the pool back: its whole region is unmapped.
    pub fn release(self, ops: &mut Vec<MmanOp>)
        ensures
            final(ops)@ == old(ops)@.push(MmanOp::Munmap { addr: self.spec_start(), size: POOL_SIZE }),
    {
        ops.push(MmanOp::Munmap { addr: self.start_addr, size: POOL_SIZE });
    }

    /// Hands out `size` bytes at the bump pointer and moves it to the next
    /// `STANDARD_ALIGN` boundary (at most to the end). When the bytes do not
    /// fit, reports the address and what is left from it; the bump pointer
    /// has then moved past the end, so the pool is not asked again.
    pub fn allocate(&mut self, size: u64) -> (r: Result<u64, PoolAllocError>)
        requires
            old(self).spec_next() <= old(self).spec_end(),
            old(self).spec_next() + size <= u64::MAX,
            old(self).spec_next() + size <= old(self).spec_end() ==> old(self).spec_next() + size
                + STANDARD_ALIGN <= u64::MAX,
        ensures
            final(self).spec_start() == old(self).spec_start(),
            final(self).spec_end() == old(self).spec_end(),
            ({
                let a = old(self).spec_next();
                let n = a + size;
                if n > old(self).spec_end() {
                    &&& r == Err::<u64, PoolAllocError>(
                        PoolAllocError { addr: a, allocated: (old(self).spec_end() - a) as u64 },
                    )
                    &&& final(self).spec_next() == n
                } else {
                    let up = align_up_spec(n, STANDARD_ALIGN as int);
                    &&& r == Ok::<u64, PoolAllocError>(a)
                    &&& final(self).spec_next() == if up < old(self).spec_end() {
                        up
                    } else {
                        old(self).spec_end() as int
                    }
                    &&& n <= final(self).spec_next() <= old(self).spec_end()
                }
            }),
    {
        proof {
            lemma_align_consts_pow2();
        }
        let addr = self.next_addr;
        self.next_addr = self.next_addr + size;
        if self.next_addr > self.end_addr {
            return Err(PoolAllocError::new(addr, self.end_addr - addr));
        }
        let up = align_up(self.next_addr, STANDARD_ALIGN);
        self.next_addr = if up < self.end_addr {
            up
        } else {
            self.end_addr
        };
        Ok(addr)
    }
}

} // verus!
