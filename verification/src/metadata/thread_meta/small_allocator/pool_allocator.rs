use vstd::prelude::*;

use crate::metadata::thread_meta::small_allocator::pool::Pool;
use crate::utils::consts::{POOL_SIZE, TANK_SIZE};
use crate::utils::mman_ops::MmanOp;

verus! {

/// Carves consecutive pools out of a region that it maps one tank at a time.
pub struct PoolAllocator {
    last_mapped_addr: u64,  // open endpoint
    next_pool_addr: u64,
}

impl PoolAllocator {
    /// End of the region mapped so far.
    pub closed spec fn spec_last_mapped(&self) -> u64 {
        self.last_mapped_addr
    }

    /// Start of the next pool to hand out.
    pub closed spec fn spec_next_pool(&self) -> u64 {
        self.next_pool_addr
    }

    pub open spec fn wf(&self) -> bool {
        self.spec_next_pool() <= self.spec_last_mapped()
    }

    /// Whether `next_pool` can run without an arithmetic overflow.
    pub open spec fn can_take_pool(&self) -> bool {
        &&& self.spec_next_pool() + POOL_SIZE <= u64::MAX
        &&& self.spec_next_pool() + POOL_SIZE > self.spec_last_mapped()
            ==> self.spec_last_mapped() + TANK_SIZE <= u64::MAX
    }

    /// Start of the next pool.
    pub fn next_pool_addr(&self) -> (r: u64)
        ensures
            r == self.spec_next_pool(),
    {
        self.next_pool_addr
    }

    /// Whether `next_pool` can run without an arithmetic overflow.
    pub fn check_take_pool(&self) -> (r: bool)
        ensures
            r == self.can_take_pool(),
    {
        if self.next_pool_addr > u64::MAX - POOL_SIZE {
            false
        } else if self.next_pool_addr + POOL_SIZE > self.last_mapped_addr {
            self.last_mapped_addr <= u64::MAX - TANK_SIZE
        } else {
            true
        }
    }

    /// Starts at `first_pool_addr` and maps the first tank there.
    pub fn new(first_pool_addr: u64, ops: &mut Vec<MmanOp>) -> (pa: PoolAllocator)
        requires
            first_pool_addr + TANK_SIZE <= u64::MAX,
        ensures
            pa.wf(),
            pa.spec_next_pool() == first_pool_addr,
            pa.spec_last_mapped() == first_pool_addr + TANK_SIZE,
            final(ops)@ == old(ops)@.push(MmanOp::Mmap { addr: first_pool_addr, size: TANK_SIZE }),
    {
        let mut pool_alloc = PoolAllocator {
            next_pool_addr: first_pool_addr,
            last_mapped_addr: first_pool_addr,
        };
        // preallocate a tank
        pool_alloc.map_new_tank(ops);
        pool_alloc
    }

    /// Hands out the next pool; maps a new tank first when the pool would
    /// reach past the mapped region.
    pub fn next_pool(&mut self, ops: &mut Vec<MmanOp>) -> (pool: Pool)
        requires
            old(self).wf(),
            old(self).can_take_pool(),
        ensures
            final(self).wf(),
            pool.spec_start() == old(self).spec_next_pool(),
            pool.spec_end() == pool.spec_start() + POOL_SIZE,
            pool.spec_next() == pool.spec_start(),
            final(self).spec_next_pool() == old(self).spec_next_pool() + POOL_SIZE,
            pool.spec_end() <= final(self).spec_last_mapped(),
            if old(self).spec_next_pool() + POOL_SIZE > old(self).spec_last_mapped() {
                &&& final(self).spec_last_mapped() == old(self).spec_last_mapped() + TANK_SIZE
                &&& final(ops)@ == old(ops)@.push(
                    MmanOp::Mmap { addr: old(self).spec_last_mapped(), size: TANK_SIZE },
                )
            } else {
                &&& final(self).spec_last_mapped() == old(self).spec_last_mapped()
                &&& final(ops)@ == old(ops)@
            },
    {
        let pool = Pool::new(self.next_pool_addr);
        self.next_pool_addr = self.next_pool_addr + POOL_SIZE;
        if self.next_pool_addr > self.last_mapped_addr {
            self.map_new_tank(ops);
        }
        pool
    }

    fn map_new_tank(&mut self, ops: &mut Vec<MmanOp>)
        requires
            old(self).spec_last_mapped() + TANK_SIZE <= u64::MAX,
        ensures
            final(self).spec_next_pool() == old(self).spec_next_pool(),
            final(self).spec_last_mapped() == old(self).spec_last_mapped() + TANK_SIZE,
            final(ops)@ == old(ops)@.push(
                MmanOp::Mmap { addr: old(self).spec_last_mapped(), size: TANK_SIZE },
            ),
    {
        ops.push(MmanOp::Mmap { addr: self.last_mapped_addr, size: TANK_SIZE });
        self.last_mapped_addr = self.last_mapped_addr + TANK_SIZE;
    }
}

}
