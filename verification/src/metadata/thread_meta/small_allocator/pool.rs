use vstd::prelude::*;

use crate::utils::consts::{POOL_SIZE, STANDARD_ALIGN};
use crate::utils::{align_up, align_up_spec, lemma_align_consts_pow2};

verus! {

/// A region of `POOL_SIZE` bytes handed out by bumping a pointer.
pub struct Pool {
    start_addr: u64,
    end_addr: u64,  // open endpoint
    next_addr: u64,
}

impl Pool {
    pub closed spec fn spec_start(&self) -> u64 {
        self.start_addr
    }

    pub closed spec fn spec_end(&self) -> u64 {
        self.end_addr
    }

    /// The first byte that has not been handed out yet.
    pub closed spec fn spec_next(&self) -> u64 {
        self.next_addr
    }

    pub fn new(start_addr: u64) -> (pool: Pool)
        requires
            start_addr + POOL_SIZE <= u64::MAX,
        ensures
            pool.spec_start() == start_addr,
            pool.spec_end() == start_addr + POOL_SIZE,
            pool.spec_next() == start_addr,
    {
        Pool { start_addr, end_addr: start_addr + POOL_SIZE, next_addr: start_addr }
    }

    pub fn start_addr(&self) -> (r: u64)
        ensures
            r == self.spec_start(),
    {
        self.start_addr
    }

    pub fn end_addr(&self) -> (r: u64)
        ensures
            r == self.spec_end(),
    {
        self.end_addr
    }

    /// The bump pointer.
    pub fn next_free(&self) -> (r: u64)
        ensures
            r == self.spec_next(),
    {
        self.next_addr
    }

    /// Hands out the next `STANDARD_ALIGN`-aligned address with `size` bytes
    /// behind it, or `None` when they do not fit before the end of the pool.
    /// The bump pointer moves either way, so a pool that once answered `None`
    /// is not asked again.
    pub fn next_addr(&mut self, size: u64) -> (r: Option<u64>)
        requires
            old(self).spec_next() + STANDARD_ALIGN - 1 <= u64::MAX,
            align_up_spec(old(self).spec_next() as int, STANDARD_ALIGN as int) + size <= u64::MAX,
        ensures
            ({
                let a = align_up_spec(old(self).spec_next() as int, STANDARD_ALIGN as int);
                &&& final(self).spec_start() == old(self).spec_start()
                &&& final(self).spec_end() == old(self).spec_end()
                &&& final(self).spec_next() == a + size
                &&& r == if a + size > old(self).spec_end() {
                    None::<u64>
                } else {
                    Some(a as u64)
                }
            }),
    {
        proof {
            lemma_align_consts_pow2();
        }
        let addr = align_up(self.next_addr, STANDARD_ALIGN);
        self.next_addr = addr + size;
        if self.next_addr > self.end_addr {
            None
        } else {
            Some(addr)
        }
    }
}

}
