//! The allocation logic of a memory allocator that gives every thread an
//! address space of its own and hands out addresses by moving bump pointers
//! forward. Requests below a pool are carved from per-size-class pools;
//! larger ones are bumped through a region of their own. The allocator
//! decides; the memory map is changed by its host, which carries out the
//! `MmanOp`s that each call returns.

pub mod maps;
pub mod metadata;
pub mod utils;

use vstd::prelude::*;

use crate::metadata::thread_meta::{fresh_thread_ops, is_small_addr_spec, ThreadMeta};
use crate::metadata::thread_meta::small_allocator::bin_index_spec;
use crate::metadata::{space_start, Metadata};
use crate::utils::consts::{
    ADDR_SPACE_MAX_SIZE, FIRST_ADDR_SPACE_ID, FIRST_ADDR_SPACE_START, LARGE_ADDR_SPACE_OFFSET, MAX_THREADS_NO,
    POOL_SIZE, STANDARD_ALIGN, TANK_SIZE,
};
use crate::utils::mman_ops::MmanOp;
use crate::utils::{get_address_space_id, regions_disjoint, spares};

verus! {

/// The allocator: its metadata, once `init` has set it up.
pub struct OtaAllocator {
    meta: Option<Metadata>,
}

impl OtaAllocator {
    pub closed spec fn spec_meta(&self) -> Option<Metadata> {
        self.meta
    }

    /// `init` has run.
    pub open spec fn is_init(&self) -> bool {
        self.spec_meta() is Some
    }

    /// The metadata (meaningful once initialized).
    pub open spec fn meta(&self) -> Metadata {
        self.spec_meta()->0
    }

    /// The invariant: the metadata is well formed, and each slot is
    /// registered for the thread that it was given to.
    pub open spec fn wf(&self) -> bool {
        self.is_init() ==> {
            &&& self.meta().wf()
            &&& forall|s: int|
                0 <= s < self.meta().spec_threads().len() ==> self.meta().spec_tids().get(
                    #[trigger] self.meta().spec_owners()[s],
                ) == Some(s as u64)
        }
    }

    /// The address space that holds `addr`, once a thread has it, belongs
    /// to exactly one registered thread id; a space that no thread has holds
    /// no registered thread's allocations.
    pub proof fn lemma_space_owner(&self, addr: u64)
        requires
            self.is_init(),
            self.wf(),
        ensures
            match self.meta().addr_slot(addr) {
                Some(s) => {
                    let tid = self.meta().spec_owners()[s as int];
                    &&& self.meta().spec_tids().get(tid) == Some(s)
                    &&& forall|t: u64| #[trigger] self.meta().spec_tids().get(t) == Some(s) ==> t == tid
                },
                None => forall|t: u64| #[trigger]
                    self.meta().spec_tids().contains_key(t) ==> (addr as int) / (
                    ADDR_SPACE_MAX_SIZE as int) != self.meta().spec_tids()[t] + FIRST_ADDR_SPACE_ID,
            },
    {
        let m = self.meta();
        if let Some(s) = m.addr_slot(addr) {
            let tid = m.spec_owners()[s as int];
            assert(m.spec_tids().get(tid) == Some(s));
            assert forall|t: u64| #[trigger] m.spec_tids().get(t) == Some(s) implies t == tid by {
                assert(m.spec_tids().contains_key(t));
            }
        }
    }

    /// An allocation lives at `a`.
    pub open spec fn is_live(&self, a: u64) -> bool {
        self.is_init() && self.meta().is_live(a)
    }

    /// What `usable_size(addr)` returns: the requested size of the live
    /// allocation at `addr`, or 0 when there is none.
    pub open spec fn usable_size_spec(&self, addr: u64) -> u64 {
        if self.is_live(addr) {
            self.meta().live_size(addr)
        } else {
            0
        }
    }

    /// Whether `allocate(tid, size)` can run: the thread's half of its address
    /// space that serves `size` has room, and a new thread gets an address
    /// space.
    pub open spec fn can_alloc(&self, tid: u64, size: u64) -> bool {
        let m = self.meta();
        match m.spec_tids().get(tid) {
            Some(slot) => m.spec_threads()[slot as int].can_alloc(size),
            None => m.spec_next_id() < MAX_THREADS_NO && size <= LARGE_ADDR_SPACE_OFFSET,
        }
    }

    /// `addr` lies in one of the address spaces that threads can get.
    pub open spec fn in_thread_spaces(addr: u64) -> bool {
        (addr as int) / (ADDR_SPACE_MAX_SIZE as int) < MAX_THREADS_NO
    }

    /// Whether `dealloc(addr)` can run: an address in the upper half of a
    /// thread's space must be a live large allocation of that thread.
    pub open spec fn can_free(&self, addr: u64) -> bool {
        let m = self.meta();
        &&& Self::in_thread_spaces(addr)
        &&& match m.addr_slot(addr) {
            Some(s) => !is_small_addr_spec(addr as int) ==> m.spec_threads()[s as int].spec_large().spec_live().contains_key(addr),
            None => true,
        }
    }

    /// `[a, a + s)` lies where nothing has been handed out yet.
    pub open spec fn block_unused(&self, a: int, s: int) -> bool {
        self.is_init() && self.meta().block_unused(a, s)
    }

    /// End of the region mapped so far in the half of the address space
    /// that holds `a`, by the thread that has that space.
    pub open spec fn mapped_end(&self, a: u64) -> int {
        self.meta().spec_threads()[self.meta().addr_slot(a)->0 as int].mapped_end(a as int)
    }

    /// The address that `allocate(tid, size)` hands out.
    pub open spec fn alloc_addr(&self, tid: u64, size: u64) -> int {
        let m = self.meta();
        match m.spec_tids().get(tid) {
            Some(slot) => m.spec_threads()[slot as int].next_addr_spec(size),
            None => space_start(m.spec_next_id() as int) + if size < POOL_SIZE {
                bin_index_spec(size as int) * POOL_SIZE
            } else {
                LARGE_ADDR_SPACE_OFFSET as int
            },
        }
    }

    /// The operations that `allocate(tid, size)` issues, after `ops`: a new
    /// thread first maps the first tank of each half of its space.
    pub open spec fn alloc_ops(&self, tid: u64, size: u64, ops: Seq<MmanOp>) -> Seq<MmanOp> {
        let m = self.meta();
        match m.spec_tids().get(tid) {
            Some(slot) => m.spec_threads()[slot as int].next_addr_ops(size, ops),
            None => {
                let first = space_start(m.spec_next_id() as int);
                fresh_thread_ops(
                    first,
                    size,
                    ops.push(MmanOp::Mmap { addr: first as u64, size: TANK_SIZE }).push(
                        MmanOp::Mmap { addr: (first + LARGE_ADDR_SPACE_OFFSET) as u64, size: TANK_SIZE },
                    ),
                )
            },
        }
    }

    /// How `allocate(tid, size)` changes the allocator into `post` when it
    /// hands out `addr`: the thread's allocator changes as its `next_addr`
    /// does; a new thread is registered at the next slot and address space,
    /// with the allocator that `ThreadMeta::new_in` sets up there.
    pub open spec fn alloc_post(&self, post: OtaAllocator, tid: u64, size: u64, addr: u64) -> bool {
        let m = self.meta();
        let pm = post.meta();
        match m.spec_tids().get(tid) {
            Some(slot) => {
                let t = pm.spec_threads()[slot as int];
                &&& pm.spec_tids() == m.spec_tids()
                &&& pm.spec_next_id() == m.spec_next_id()
                &&& pm.spec_threads() == m.spec_threads().update(slot as int, t)
                &&& m.spec_threads()[slot as int].next_addr_post(t, size, addr)
            },
            None => {
                let first = space_start(m.spec_next_id() as int);
                let n = m.spec_threads().len();
                let t = pm.spec_threads()[n as int];
                &&& pm.spec_tids() == m.spec_tids().insert(tid, n as u64)
                &&& pm.spec_next_id() == m.spec_next_id() + 1
                &&& pm.spec_threads() == m.spec_threads().push(t)
                &&& exists|t0: ThreadMeta| #[trigger]
                    t0.is_fresh(first as u64) && t0.next_addr_post(t, size, addr)
            },
        }
    }

    /// The operations that `dealloc(addr)` issues, after `ops`.
    pub open spec fn dealloc_ops(&self, addr: u64, ops: Seq<MmanOp>) -> Seq<MmanOp> {
        match self.meta().addr_slot(addr) {
            Some(s) => self.meta().spec_threads()[s as int].free_ops(addr, ops),
            None => ops,
        }
    }

    /// How `dealloc(addr)` changes the allocator into `post`: the thread
    /// whose space holds `addr` frees it; an address in no thread's space
    /// changes nothing.
    pub open spec fn dealloc_post(&self, post: OtaAllocator, addr: u64) -> bool {
        let m = self.meta();
        let pm = post.meta();
        match m.addr_slot(addr) {
            Some(s) => {
                let t = pm.spec_threads()[s as int];
                &&& post.is_init()
                &&& pm.spec_tids() == m.spec_tids()
                &&& pm.spec_next_id() == m.spec_next_id()
                &&& pm.spec_threads() == m.spec_threads().update(s as int, t)
                &&& m.spec_threads()[s as int].free_post(t, addr)
            },
            None => post == *self,
        }
    }

    /// A live allocation lies apart from every block that is unused, so
    /// nothing handed out later overlaps it, whether it is freed first or not.
    pub proof fn lemma_live_apart_from_unused(&self, a: u64, x: int, s: int)
        requires
            self.wf(),
            self.is_live(a),
            self.block_unused(x, s),
        ensures
            regions_disjoint(a as int, self.meta().live_size(a) as int, x, s),
    {
        self.meta().lemma_live_apart_from_unused(a, x, s);
    }

    /// What `allocate` of `size` bytes makes of the allocator when it hands
    /// out `addr`, as far as the live allocations go.
    pub open spec fn allocates(&self, post: OtaAllocator, size: u64, addr: u64) -> bool {
        &&& post.is_init()
        &&& post.wf()
        &&& self.block_unused(addr as int, size as int)
        &&& post.is_live(addr)
        &&& post.meta().live_size(addr) == size
        &&& forall|b: u64| #[trigger] post.is_live(b) == (self.is_live(b) || b == addr)
        &&& forall|b: u64|
            #[trigger] self.is_live(b) && b != addr ==> post.meta().live_size(b)
                == self.meta().live_size(b)
    }

    /// What `dealloc(addr)` makes of the allocator, as far as the live
    /// allocations go.
    pub open spec fn deallocates(&self, post: OtaAllocator, addr: u64) -> bool {
        &&& post.is_init()
        &&& post.wf()
        &&& forall|b: u64| #[trigger] post.is_live(b) == (self.is_live(b) && b != addr)
        &&& forall|b: u64|
            #[trigger] post.is_live(b) ==> post.meta().live_size(b) == self.meta().live_size(b)
    }

    /// What `allocate` hands out, `usable_size` reads back: once `n` bytes
    /// live at `a`, the usable size there stays `n` through any run of
    /// `allocate`s of some bytes and `dealloc`s of other addresses
    /// (`frees[i]` tells which step `i` is).
    pub proof fn lemma_usable_size_kept(
        states: Seq<OtaAllocator>,
        frees: Seq<bool>,
        sizes: Seq<u64>,
        addrs: Seq<u64>,
        a: u64,
    )
        requires
            states.len() == frees.len() + 1,
            sizes.len() == frees.len(),
            addrs.len() == frees.len(),
            states[0].is_init(),
            states[0].wf(),
            states[0].is_live(a),
            states[0].meta().live_size(a) > 0,
            forall|i: int|
                0 <= i < frees.len() ==> if #[trigger] frees[i] {
                    addrs[i] != a && states[i].deallocates(states[i + 1], addrs[i])
                } else {
                    sizes[i] > 0 && states[i].allocates(states[i + 1], sizes[i], addrs[i])
                },
        ensures
            states.last().usable_size_spec(a) == states[0].usable_size_spec(a),
            states.last().is_live(a),
        decreases frees.len(),
    {
        if frees.len() > 0 {
            let k = frees.len() - 1;
            Self::lemma_usable_size_kept(
                states.drop_last(),
                frees.drop_last(),
                sizes.drop_last(),
                addrs.drop_last(),
                a,
            );
            let pre = states[k];
            let post = states[k + 1];
            assert(states.drop_last().last() == pre);
            assert(frees[k] == frees[k]);
            if k > 0 {
                let j = k - 1;
                if frees[j] {
                    assert(states[j].deallocates(states[j + 1], addrs[j]));
                } else {
                    assert(states[j].allocates(states[j + 1], sizes[j], addrs[j]));
                }
                assert(states[j + 1] == pre);
            }
            assert(pre.wf());
            if !frees[k] {
                pre.lemma_live_apart_from_unused(a, addrs[k] as int, sizes[k] as int);
            }
        }
    }

    /// Once `a` is freed, `usable_size` there reads 0.
    pub proof fn lemma_usable_size_after_free(&self, post: OtaAllocator, a: u64)
        requires
            self.deallocates(post, a),
        ensures
            post.usable_size_spec(a) == 0,
    {
    }

    /// Every live allocation can be freed, and so can an address in a space
    /// that no thread has (a free that changes nothing).
    pub proof fn lemma_can_free(&self, a: u64)
        requires
            self.is_init(),
            self.wf(),
            self.is_live(a) || (Self::in_thread_spaces(a) && self.meta().addr_slot(a) is None),
        ensures
            self.can_free(a),
    {
        let m = self.meta();
        if self.is_live(a) {
            let s = m.addr_slot(a)->0 as int;
            m.lemma_live_in_own_space(s, a);
            m.spec_threads()[s].lemma_halves(a);
        }
    }

    /// A thread without an address space can be served any request up to
    /// the upper half of a space, as long as a space is left; a thread with
    /// one can be served any request below a pool while its small region
    /// stays a pool below its upper half, and any larger request while its
    /// large region has room for it, with a tank to spare.
    pub proof fn lemma_can_alloc(&self, tid: u64, size: u64)
        requires
            self.is_init(),
            self.wf(),
        ensures
            self.meta().spec_tids().get(tid) is None && self.meta().spec_next_id() < MAX_THREADS_NO
                && size <= LARGE_ADDR_SPACE_OFFSET ==> self.can_alloc(tid, size),
            self.meta().spec_tids().get(tid) matches Some(s) ==> {
                let t = self.meta().spec_threads()[s as int];
                &&& size < POOL_SIZE && t.spec_small().frontier() + POOL_SIZE < t.spec_first()
                    + LARGE_ADDR_SPACE_OFFSET ==> self.can_alloc(tid, size)
                &&& POOL_SIZE <= size && t.spec_large().spec_next() + STANDARD_ALIGN + size
                    + TANK_SIZE <= t.spec_first() + ADDR_SPACE_MAX_SIZE ==> self.can_alloc(tid, size)
            },
    {
        if let Some(s) = self.meta().spec_tids().get(tid) {
            let t = self.meta().spec_threads()[s as int];
            if size < POOL_SIZE && t.spec_small().frontier() + POOL_SIZE < t.spec_first()
                + LARGE_ADDR_SPACE_OFFSET {
                t.lemma_can_alloc_small(size);
            }
            if POOL_SIZE <= size && t.spec_large().spec_next() + STANDARD_ALIGN + size + TANK_SIZE
                <= t.spec_first() + ADDR_SPACE_MAX_SIZE {
                t.lemma_can_alloc_large(size);
            }
        }
    }

    /// No two live allocations overlap.
    pub proof fn lemma_live_disjoint(&self, a: u64, b: u64)
        requires
            self.wf(),
            self.is_live(a),
            self.is_live(b),
            a != b,
        ensures
            regions_disjoint(
                a as int,
                self.meta().live_size(a) as int,
                b as int,
                self.meta().live_size(b) as int,
            ),
    {
        self.meta().lemma_live_disjoint(a, b);
    }

    /// Whether `init` has run.
    pub fn is_initialized(&self) -> (r: bool)
        ensures
            r == self.is_init(),
    {
        self.meta.is_some()
    }

    /// Whether `allocate(tid, size)` can run.
    pub fn check_alloc(&self, tid: u64, size: u64) -> (r: bool)
        requires
            self.is_init(),
            self.wf(),
        ensures
            r == self.can_alloc(tid, size),
    {
        match &self.meta {
            Some(meta) => match meta.get_tmeta(tid) {
                Some(slot) => meta.tmeta_check_alloc(slot, size),
                None => meta.has_free_space() && size <= LARGE_ADDR_SPACE_OFFSET,
            },
            None => false,
        }
    }

    /// Whether `dealloc(addr)` can run.
    pub fn check_free(&self, addr: u64) -> (r: bool)
        requires
            self.is_init(),
            self.wf(),
        ensures
            r == self.can_free(addr),
    {
        match &self.meta {
            Some(meta) => {
                if get_address_space_id(addr) >= MAX_THREADS_NO {
                    return false;
                }
                match meta.get_addr_tmeta(addr) {
                    Some(slot) => meta.tmeta_check_free(slot, addr),
                    None => true,
                }
            },
            None => false,
        }
    }

    /// An allocator with no metadata yet.
    pub fn new_in() -> (a: OtaAllocator)
        ensures
            !a.is_init(),
            a.wf(),
    {
        OtaAllocator { meta: None }
    }

    /// Sets up the metadata: no thread has allocated yet.
    pub fn init(&mut self)
        ensures
            final(self).is_init(),
            final(self).wf(),
            forall|a: u64| !final(self).is_live(a),
            final(self).meta().spec_tids() == Map::<u64, u64>::empty(),
            final(self).meta().spec_next_id() == FIRST_ADDR_SPACE_ID,
    {
        self.meta = Some(Metadata::new_in(FIRST_ADDR_SPACE_START));
        proof {
            assert forall|a: u64| !self.is_live(a) by {
                assert(self.meta().addr_slot(a) is None);
            }
        }
    }

    /// Serves `size` bytes to thread `tid`, giving the thread its address
    /// space first if it has none. The region handed out lies in the thread's
    /// address space, below the end of what its half has mapped, and overlaps
    /// no live allocation. It was unused before, no block of some bytes at its
    /// address is unused after a request of some bytes, and nothing becomes
    /// unused again: an address is not handed out twice for requests of some
    /// bytes, freed or not. No operation issued gives back a live allocation
    /// or an unused block.
    #[verifier::spinoff_prover]
    #[verifier::rlimit(40)]
    pub fn allocate(&mut self, tid: u64, size: u64, ops: &mut Vec<MmanOp>) -> (addr: u64)
        requires
            old(self).is_init(),
            old(self).wf(),
            old(self).can_alloc(tid, size),
        ensures
            final(self).is_init(),
            final(self).wf(),
            final(self).is_live(addr),
            final(self).meta().live_size(addr) == size,
            final(self).usable_size_spec(addr) == size,
            final(self).meta().spec_tids().contains_key(tid),
            final(self).meta().addr_slot(addr) == Some(final(self).meta().spec_tids()[tid]),
            addr % STANDARD_ALIGN == 0,
            is_small_addr_spec(addr as int) == (size < POOL_SIZE),
            addr == old(self).alloc_addr(tid, size),
            old(self).allocates(*final(self), size, addr),
            final(ops)@ == old(self).alloc_ops(tid, size, old(ops)@),
            old(self).alloc_post(*final(self), tid, size, addr),
            old(self).block_unused(addr as int, size as int),
            forall|a: int, s: int| #[trigger]
                final(self).block_unused(a, s) ==> old(self).block_unused(a, s),
            size > 0 ==> forall|s: int| s > 0 ==> !#[trigger] final(self).block_unused(addr as int, s),
            addr + size <= final(self).mapped_end(addr),
            forall|a: int, s: int| #[trigger]
                final(self).block_unused(a, s) ==> regions_disjoint(a, s, addr as int, size as int),
            forall|k: int, a: int, s: int|
                old(ops)@.len() <= k < final(ops)@.len() && #[trigger] final(self).block_unused(a, s)
                    ==> spares(#[trigger] final(ops)@[k], a, s),
            forall|b: u64| #[trigger] final(self).is_live(b) == (old(self).is_live(b) || b == addr),
            forall|b: u64|
                #[trigger] old(self).is_live(b) && b != addr ==> final(self).meta().live_size(b)
                    == old(self).meta().live_size(b) && regions_disjoint(
                    b as int,
                    old(self).meta().live_size(b) as int,
                    addr as int,
                    size as int,
                ),
            forall|k: int, b: u64|
                old(ops)@.len() <= k < final(ops)@.len() && #[trigger] final(self).is_live(b)
                    ==> spares(#[trigger] final(ops)@[k], b as int, final(self).meta().live_size(b) as int),
    {
        let ghost pre = *self;
        match &mut self.meta {
            Some(meta) => {
                let slot = match meta.get_tmeta(tid) {
                    Some(slot) => slot,
                    None => {
                        meta.add_new_thread(tid, ops);
                        meta.get_tmeta(tid).unwrap()
                    },
                };
                let ghost mid = *meta;
                let ghost mid_ops = ops@;
                let addr = meta.tmeta_next_addr(slot, size, ops);
                proof {
                    let s = slot as int;
                    assert(meta.spec_threads() =~= mid.spec_threads().update(s, meta.spec_threads()[s]));
                    if pre.meta().spec_tids().get(tid) is None {
                        assert(mid.spec_threads() =~= pre.meta().spec_threads().push(mid.spec_threads()[s]));
                        assert(mid.spec_threads()[s].is_fresh(space_start(pre.meta().spec_next_id() as int) as u64));
                        assert(meta.spec_threads() =~= pre.meta().spec_threads().push(meta.spec_threads()[s]));
                    }
                    assert forall|k: int, a: int, x: int|
                        old(ops)@.len() <= k < ops@.len() && #[trigger] meta.block_unused(a, x) implies spares(
                        #[trigger] ops@[k],
                        a,
                        x,
                    ) by {
                        if k < mid_ops.len() {
                            assert(ops@[k] == mid_ops[k]);
                        }
                    }
                    assert forall|a: int, x: int| #[trigger] meta.block_unused(a, x) implies regions_disjoint(
                        a,
                        x,
                        addr as int,
                        size as int,
                    ) by {
                        meta.lemma_live_apart_from_unused(addr, a, x);
                    }
                }
                addr
            },
            None => 0,
        }
    }

    /// Frees the allocation at `addr` in the thread whose address space holds
    /// it; an address in no thread's space is an invalid or double free and
    /// changes nothing. What is given back spares every live allocation.
    pub fn dealloc(&mut self, addr: u64, ops: &mut Vec<MmanOp>)
        requires
            old(self).is_init(),
            old(self).wf(),
            old(self).can_free(addr),
        ensures
            final(self).is_init(),
            final(self).wf(),
            final(ops)@ == old(self).dealloc_ops(addr, old(ops)@),
            old(self).deallocates(*final(self), addr),
            old(self).dealloc_post(*final(self), addr),
            forall|a: int, s: int| #[trigger]
                final(self).block_unused(a, s) == old(self).block_unused(a, s),
            forall|k: int, a: int, s: int|
                old(ops)@.len() <= k < final(ops)@.len() && #[trigger] old(self).block_unused(a, s)
                    ==> spares(#[trigger] final(ops)@[k], a, s),
            forall|b: u64| #[trigger] final(self).is_live(b) == (old(self).is_live(b) && b != addr),
            forall|b: u64| #[trigger]
                final(self).is_live(b) ==> final(self).meta().live_size(b) == old(self).meta().live_size(b),
            final(self).usable_size_spec(addr) == 0,
            forall|t: u64, size: u64| #[trigger]
                old(self).can_alloc(t, size) ==> final(self).can_alloc(t, size),
            forall|k: int, b: u64|
                old(ops)@.len() <= k < final(ops)@.len() && #[trigger] final(self).is_live(b)
                    ==> spares(#[trigger] final(ops)@[k], b as int, final(self).meta().live_size(b) as int),
    {
        let ghost pre = *self;
        match &mut self.meta {
            Some(meta) => {
                match meta.get_addr_tmeta(addr) {
                    None => {
                        // an invalid or double free
                    },
                    Some(slot) => {
                        let ghost mid = *meta;
                        meta.tmeta_free(slot, addr, ops);
                        proof {
                            let s = slot as int;
                            assert(meta.spec_threads() =~= mid.spec_threads().update(s, meta.spec_threads()[s]));
                        }
                    },
                }
            },
            None => {},
        }
        proof {
            assert forall|t: u64, size: u64| #[trigger]
                pre.can_alloc(t, size) implies self.can_alloc(t, size) by {
                if let Some(slot) = pre.meta().addr_slot(addr) {
                    if let Some(s) = pre.meta().spec_tids().get(t) {
                        if s != slot {
                            assert(self.meta().spec_threads()[s as int] == pre.meta().spec_threads()[s as int]);
                        } else {
                            assert(pre.meta().spec_threads()[s as int].can_alloc(size));
                        }
                    }
                }
            }
        }
    }

    /// The requested size of the live allocation at `addr`, or 0 when there
    /// is none.
    pub fn usable_size(&self, addr: u64) -> (r: u64)
        requires
            self.is_init(),
            self.wf(),
            Self::in_thread_spaces(addr),
        ensures
            r == self.usable_size_spec(addr),
    {
        match &self.meta {
            Some(meta) => match meta.get_addr_tmeta(addr) {
                None => 0,
                Some(slot) => meta.tmeta_usable_size(slot, addr),
            },
            None => 0,
        }
    }

    /// As `allocate`: the memory handed out has never been handed out
    /// before, and fresh mappings are zeroed.
    pub fn alloc_zeroed(&mut self, tid: u64, size: u64, ops: &mut Vec<MmanOp>) -> (addr: u64)
        requires
            old(self).is_init(),
            old(self).wf(),
            old(self).can_alloc(tid, size),
        ensures
            final(self).is_init(),
            final(self).wf(),
            final(self).is_live(addr),
            final(self).meta().live_size(addr) == size,
            final(self).meta().addr_slot(addr) == Some(final(self).meta().spec_tids()[tid]),
            addr % STANDARD_ALIGN == 0,
            addr == old(self).alloc_addr(tid, size),
            old(self).allocates(*final(self), size, addr),
            final(ops)@ == old(self).alloc_ops(tid, size, old(ops)@),
            old(self).alloc_post(*final(self), tid, size, addr),
            old(self).block_unused(addr as int, size as int),
            forall|a: int, s: int| #[trigger]
                final(self).block_unused(a, s) ==> old(self).block_unused(a, s),
            size > 0 ==> forall|s: int| s > 0 ==> !#[trigger] final(self).block_unused(addr as int, s),
            addr + size <= final(self).mapped_end(addr),
            forall|a: int, s: int| #[trigger]
                final(self).block_unused(a, s) ==> regions_disjoint(a, s, addr as int, size as int),
            forall|k: int, a: int, s: int|
                old(ops)@.len() <= k < final(ops)@.len() && #[trigger] final(self).block_unused(a, s)
                    ==> spares(#[trigger] final(ops)@[k], a, s),
            forall|b: u64| #[trigger] final(self).is_live(b) == (old(self).is_live(b) || b == addr),
            forall|b: u64|
                #[trigger] old(self).is_live(b) && b != addr ==> final(self).meta().live_size(b)
                    == old(self).meta().live_size(b) && regions_disjoint(
                    b as int,
                    old(self).meta().live_size(b) as int,
                    addr as int,
                    size as int,
                ),
            forall|k: int, b: u64|
                old(ops)@.len() <= k < final(ops)@.len() && #[trigger] final(self).is_live(b)
                    ==> spares(#[trigger] final(ops)@[k], b as int, final(self).meta().live_size(b) as int),
    {
        self.allocate(tid, size, ops)
    }

    /// Frees `addr`, then serves `new_size` bytes to thread `tid`. Carrying
    /// the contents over is the host's part: it needs the old block still
    /// mapped, so a host that copies serves the new block first (see
    /// `allocate`) and frees the old one after.
    #[verifier::spinoff_prover]
    #[verifier::rlimit(40)]
    pub fn realloc(&mut self, tid: u64, addr: u64, new_size: u64, ops: &mut Vec<MmanOp>) -> (r: u64)
        requires
            old(self).is_init(),
            old(self).wf(),
            old(self).can_free(addr),
            old(self).can_alloc(tid, new_size),
        ensures
            final(self).is_init(),
            final(self).wf(),
            final(self).is_live(r),
            final(self).meta().live_size(r) == new_size,
            r % STANDARD_ALIGN == 0,
            forall|b: u64| #[trigger]
                final(self).is_live(b) == ((old(self).is_live(b) && b != addr) || b == r),
            forall|b: u64| #[trigger]
                old(self).is_live(b) && b != addr && b != r ==> final(self).meta().live_size(b)
                    == old(self).meta().live_size(b),
            exists|mid: OtaAllocator| #[trigger]
                old(self).dealloc_post(mid, addr) && {
                    &&& mid.is_init()
                    &&& mid.wf()
                    &&& r == mid.alloc_addr(tid, new_size)
                    &&& final(ops)@ == mid.alloc_ops(
                        tid,
                        new_size,
                        old(self).dealloc_ops(addr, old(ops)@),
                    )
                    &&& mid.alloc_post(*final(self), tid, new_size, r)
                },
            old(self).block_unused(r as int, new_size as int),
            forall|a: int, s: int| #[trigger]
                final(self).block_unused(a, s) ==> old(self).block_unused(a, s),
            new_size > 0 ==> forall|s: int| s > 0 ==> !#[trigger] final(self).block_unused(r as int, s),
            r + new_size <= final(self).mapped_end(r),
            forall|a: int, s: int| #[trigger]
                final(self).block_unused(a, s) ==> regions_disjoint(a, s, r as int, new_size as int),
            forall|k: int, a: int, s: int|
                old(ops)@.len() <= k < final(ops)@.len() && #[trigger] final(self).block_unused(a, s)
                    ==> spares(#[trigger] final(ops)@[k], a, s),
            forall|k: int, b: u64|
                old(ops)@.len() <= k < final(ops)@.len() && #[trigger] final(self).is_live(b)
                    ==> spares(#[trigger] final(ops)@[k], b as int, final(self).meta().live_size(b) as int),
    {
        let ghost pre = *self;
        let ghost ops0 = ops@;
        self.dealloc(addr, ops);
        let ghost mid = *self;
        let ghost ops1 = ops@;
        let r = self.allocate(tid, new_size, ops);
        proof {
            assert(pre.dealloc_post(mid, addr));
            assert forall|k: int, b: u64|
                ops0.len() <= k < ops@.len() && #[trigger] self.is_live(b) implies spares(
                #[trigger] ops@[k],
                b as int,
                self.meta().live_size(b) as int,
            ) by {
                if k < ops1.len() {
                    assert(ops@[k] == ops1[k]);
                    if b == r {
                        assert(mid.block_unused(r as int, new_size as int));
                        assert(pre.block_unused(r as int, new_size as int));
                    } else {
                        assert(mid.is_live(b));
                    }
                }
            }
            assert forall|k: int, a: int, x: int|
                ops0.len() <= k < ops@.len() && #[trigger] self.block_unused(a, x) implies spares(
                #[trigger] ops@[k],
                a,
                x,
            ) by {
                if k < ops1.len() {
                    assert(ops@[k] == ops1[k]);
                    assert(mid.block_unused(a, x));
                }
            }
        }
        r
    }
}

} // verus!
