pub mod pool;

use vstd::prelude::*;

use crate::metadata::thread_meta::pool_allocator::pool::Pool;
use crate::utils::consts::{MAPPED_MEMORY_EXTENSION_SIZE, POOL_SIZE};
use crate::utils::mman_ops::MmanOp;
use crate::utils::{align_up, align_up_spec, lemma_align_consts_pow2};

verus! {

/// Carves consecutive pools, or regions of whole pools, out of a region that
/// it maps as it goes.
pub struct PoolAllocator {
    last_mapped_addr: u64,  // open endpoint
    next_pool_addr: u64,
}

impl PoolAllocator {
    /// End of the region mapped so far.
    pub closed spec fn spec_last_mapped(&self) -> u64 {
        self.last_mapped_addr
    }

    /// Start of what is handed out next.
    pub closed spec fn spec_next_pool(&self) -> u64 {
        self.next_pool_addr
    }

    pub open spec fn wf(&self) -> bool {
        self.spec_next_pool() <= self.spec_last_mapped()
    }

    /// Starts at `first_pool_addr`, with nothing mapped yet.
    pub fn new(first_pool_addr: u64) -> (pa: PoolAllocator)
        ensures
            pa.wf(),
            pa.spec_next_pool() == first_pool_addr,
            pa.spec_last_mapped() == first_pool_addr,
    {
        PoolAllocator { next_pool_addr: first_pool_addr, last_mapped_addr: first_pool_addr }
    }

    /// Hands out the next pool, extending the mapped region when the pool
    /// reaches past it.
    pub fn next_pool(&mut self, ops: &mut Vec<MmanOp>) -> (pool: Pool)
        requires
            old(self).wf(),
            old(self).spec_next_pool() + POOL_SIZE <= u64::MAX,
            old(self).spec_next_pool() + POOL_SIZE > old(self).spec_last_mapped()
                ==> old(self).spec_last_mapped() + MAPPED_MEMORY_EXTENSION_SIZE <= u64::MAX,
        ensures
            final(self).wf(),
            pool.spec_start() == old(self).spec_next_pool(),
            pool.spec_end() == pool.spec_start() + POOL_SIZE,
            pool.spec_next() == pool.spec_start(),
            final(self).spec_next_pool() == old(self).spec_next_pool() + POOL_SIZE,
            pool.spec_end() <= final(self).spec_last_mapped(),
            if old(self).spec_next_pool() + POOL_SIZE > old(self).spec_last_mapped() {
                &&& final(self).spec_last_mapped() == old(self).spec_last_mapped()
                    + MAPPED_MEMORY_EXTENSION_SIZE
                &&& final(ops)@ == old(ops)@.push(
                    MmanOp::Mmap {
                        addr: old(self).spec_last_mapped(),
                        size: MAPPED_MEMORY_EXTENSION_SIZE,
                    },
                )
            } else {
                &&& final(self).spec_last_mapped() == old(self).spec_last_mapped()
                &&& final(ops)@ == old(ops)@
            },
    {
        let pool = Pool::new(self.next_pool_addr);
        self.next_pool_addr = self.next_pool_addr + POOL_SIZE;
        if self.next_pool_addr > self.last_mapped_addr {
            self.extend_mapped_region(MAPPED_MEMORY_EXTENSION_SIZE, ops);
        }
        pool
    }

    /// Hands out a region of `size` bytes rounded up to whole pools,
    /// extending the mapped region, by at least `MAPPED_MEMORY_EXTENSION_SIZE`,
    /// when the region reaches past it.
    pub fn next_region(&mut self, size: u64, ops: &mut Vec<MmanOp>) -> (region: u64)
        requires
            old(self).wf(),
            size + POOL_SIZE <= u64::MAX,
            old(self).spec_next_pool() + align_up_spec(size as int, POOL_SIZE as int) <= u64::MAX,
            old(self).spec_next_pool() + align_up_spec(size as int, POOL_SIZE as int)
                > old(self).spec_last_mapped() ==> old(self).spec_last_mapped() + if align_up_spec(
                size as int,
                POOL_SIZE as int,
            ) < MAPPED_MEMORY_EXTENSION_SIZE {
                MAPPED_MEMORY_EXTENSION_SIZE as int
            } else {
                align_up_spec(size as int, POOL_SIZE as int)
            } <= u64::MAX,
        ensures
            final(self).wf(),
            region == old(self).spec_next_pool(),
            ({
                let rounded = align_up_spec(size as int, POOL_SIZE as int);
                let grow = if rounded < MAPPED_MEMORY_EXTENSION_SIZE {
                    MAPPED_MEMORY_EXTENSION_SIZE as int
                } else {
                    rounded
                };
                &&& final(self).spec_next_pool() == region + rounded
                &&& size <= rounded
                &&& final(self).spec_next_pool() <= final(self).spec_last_mapped()
                &&& if region + rounded > old(self).spec_last_mapped() {
                    &&& final(self).spec_last_mapped() == old(self).spec_last_mapped() + grow
                    &&& final(ops)@ == old(ops)@.push(
                        MmanOp::Mmap { addr: old(self).spec_last_mapped(), size: grow as u64 },
                    )
                } else {
                    &&& final(self).spec_last_mapped() == old(self).spec_last_mapped()
                    &&& final(ops)@ == old(ops)@
                }
            }),
    {
        proof {
            lemma_align_consts_pow2();
        }
        let region = self.next_pool_addr;
        let size = align_up(size, POOL_SIZE);
        self.next_pool_addr = self.next_pool_addr + size;
        if self.next_pool_addr > self.last_mapped_addr {
            let grow = if size < MAPPED_MEMORY_EXTENSION_SIZE {
                MAPPED_MEMORY_EXTENSION_SIZE
            } else {
                size
            };
            self.extend_mapped_region(grow, ops);
        }
        region
    }

    fn extend_mapped_region(&mut self, size: u64, ops: &mut Vec<MmanOp>)
        requires
            old(self).spec_last_mapped() + size <= u64::MAX,
        ensures
            final(self).spec_next_pool() == old(self).spec_next_pool(),
            final(self).spec_last_mapped() == old(self).spec_last_mapped() + size,
            final(ops)@ == old(ops)@.push(MmanOp::Mmap { addr: old(self).spec_last_mapped(), size }),
    {
        ops.push(MmanOp::Mmap { addr: self.last_mapped_addr, size });
        self.last_mapped_addr = self.last_mapped_addr + size;
    }
}

} // verus!
