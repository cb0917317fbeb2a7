pub mod addr_meta;
pub mod allocator_wrapper;
pub mod metadata_allocator_wrapper;
pub mod thread_meta;

use vstd::prelude::*;

use crate::maps::{U64Map, u64_map_contents};
use crate::metadata::thread_meta::small_allocator::bin_index_spec;
use crate::metadata::thread_meta::{fresh_thread_ops, is_small_addr_spec, ThreadMeta};
use crate::utils::consts::{
    ADDR_SPACE_MAX_SIZE, FIRST_ADDR_SPACE_ID, LARGE_ADDR_SPACE_OFFSET, MAX_THREADS_NO, POOL_SIZE,
    RESV_THREADS_NO, TANK_SIZE,
};
use crate::utils::mman_ops::MmanOp;
use crate::utils::{
    get_address_space_for_id, get_address_space_id, regions_disjoint, spares, unmaps_within,
};

verus! {

/// Start of the address space with index `id`.
pub open spec fn space_start(id: int) -> int {
    id * ADDR_SPACE_MAX_SIZE
}

/// The allocator's record of the threads that allocate: each gets its own
/// address space and its own `ThreadMeta`, found by thread id and by address
/// space. A thread's metadata is kept in `threads`, at its slot; the two
/// tables hold slots.
pub struct Metadata {
    next_addr_space_id: u64,
    addr_space2tmeta: Vec<Option<u64>>,
    tid2tmeta: U64Map,
    threads: Vec<ThreadMeta>,
    owners: Ghost<Seq<u64>>,
}

impl Metadata {
    /// Index of the address space that the next thread gets.
    pub closed spec fn spec_next_id(&self) -> u64 {
        self.next_addr_space_id
    }

    /// Slot of each thread, by thread id.
    pub closed spec fn spec_tids(&self) -> Map<u64, u64> {
        u64_map_contents(self.tid2tmeta)
    }

    /// The thread that each slot was given to, by slot.
    pub closed spec fn spec_owners(&self) -> Seq<u64> {
        self.owners@
    }

    /// The threads' metadata, by slot.
    pub closed spec fn spec_threads(&self) -> Seq<ThreadMeta> {
        self.threads@
    }

    /// Slot of the thread whose address space has index `id`, if any.
    pub closed spec fn spec_space_slot(&self, id: int) -> Option<u64> {
        self.addr_space2tmeta@[id]
    }

    pub closed spec fn tables_wf(&self) -> bool {
        &&& self.addr_space2tmeta@.len() == MAX_THREADS_NO
        &&& forall|id: int|
            0 <= id < MAX_THREADS_NO ==> #[trigger] self.addr_space2tmeta@[id] == if FIRST_ADDR_SPACE_ID
                <= id < self.next_addr_space_id {
                Some((id - FIRST_ADDR_SPACE_ID) as u64)
            } else {
                None
            }
    }

    /// The invariant: thread `s` owns address space `s + FIRST_ADDR_SPACE_ID`.
    pub open spec fn wf(&self) -> bool {
        &&& self.tables_wf()
        &&& FIRST_ADDR_SPACE_ID <= self.spec_next_id() <= MAX_THREADS_NO
        &&& self.spec_threads().len() == self.spec_next_id() - FIRST_ADDR_SPACE_ID
        &&& forall|tid: u64| #[trigger]
            self.spec_tids().contains_key(tid) ==> self.spec_tids()[tid] < self.spec_threads().len()
        &&& self.spec_owners().len() == self.spec_threads().len()
        &&& forall|tid: u64| #[trigger]
            self.spec_tids().contains_key(tid) ==> self.spec_owners()[self.spec_tids()[tid] as int]
                == tid
        &&& forall|s: int|
            0 <= s < self.spec_threads().len() ==> {
                &&& (#[trigger] self.spec_threads()[s]).wf()
                &&& self.spec_threads()[s].spec_first() == space_start(s + FIRST_ADDR_SPACE_ID)
            }
    }

    /// Slot of the thread whose address space `addr` lies in, if any.
    pub open spec fn addr_slot(&self, addr: u64) -> Option<u64> {
        let id = addr as int / ADDR_SPACE_MAX_SIZE as int;
        if FIRST_ADDR_SPACE_ID <= id < self.spec_next_id() {
            Some((id - FIRST_ADDR_SPACE_ID) as u64)
        } else {
            None
        }
    }

    /// An allocation lives at `a` (in the thread whose space holds `a`).
    pub open spec fn is_live(&self, a: u64) -> bool {
        match self.addr_slot(a) {
            Some(s) => s < self.spec_threads().len() && self.spec_threads()[s as int].is_live(a),
            None => false,
        }
    }

    /// The requested size of the live allocation at `a`.
    pub open spec fn live_size(&self, a: u64) -> u64 {
        self.spec_threads()[self.addr_slot(a)->0 as int].live_size(a)
    }

    /// `[a, a + s)` lies in one address space where nothing has been handed
    /// out: in the space of a thread, where that thread has handed nothing
    /// out, or in a space that no thread has yet.
    pub open spec fn block_unused(&self, a: int, s: int) -> bool {
        let id = a / (ADDR_SPACE_MAX_SIZE as int);
        &&& 0 <= a
        &&& if FIRST_ADDR_SPACE_ID <= id < self.spec_next_id() {
            self.spec_threads()[id - FIRST_ADDR_SPACE_ID].block_unused(a, s)
        } else {
            &&& self.spec_next_id() <= id < MAX_THREADS_NO
            &&& 0 <= s
            &&& a + s <= space_start(id + 1)
        }
    }

    /// An unused block lies in the address space of its start.
    pub proof fn lemma_unused_in_space(&self, a: int, s: int)
        requires
            self.wf(),
            self.block_unused(a, s),
        ensures
            space_start(a / (ADDR_SPACE_MAX_SIZE as int)) <= a,
            a + s <= space_start(a / (ADDR_SPACE_MAX_SIZE as int) + 1),
    {
        let id = a / 0x100_0000_0000;
        assert(id * 0x100_0000_0000 <= a < id * 0x100_0000_0000 + 0x100_0000_0000) by (nonlinear_arith)
            requires
                a >= 0,
                id == a / 0x100_0000_0000,
        ;
        assert(space_start(id + 1) == space_start(id) + 0x100_0000_0000) by (nonlinear_arith);
        if FIRST_ADDR_SPACE_ID <= id < self.spec_next_id() {
            let t = self.spec_threads()[id - FIRST_ADDR_SPACE_ID];
            t.lemma_unused_in_space(a, s);
        }
    }

    /// A live allocation lies apart from every block that is unused.
    pub proof fn lemma_live_apart_from_unused(&self, a: u64, x: int, s: int)
        requires
            self.wf(),
            self.is_live(a),
            self.block_unused(x, s),
        ensures
            regions_disjoint(a as int, self.live_size(a) as int, x, s),
    {
        let sl = self.addr_slot(a)->0 as int;
        self.lemma_live_in_own_space(sl, a);
        self.lemma_unused_in_space(x, s);
        let id = x / (ADDR_SPACE_MAX_SIZE as int);
        let ida = sl + FIRST_ADDR_SPACE_ID;
        if id == ida {
            self.spec_threads()[sl].lemma_live_apart_from_unused(a, x, s);
        } else {
            assert(space_start(id + 1) <= space_start(ida) || space_start(ida + 1) <= space_start(id))
                by (nonlinear_arith)
                requires
                    id != ida,
            ;
        }
    }

    /// What the thread at `s` gives back lies in its own address space, so
    /// an unused block of another space is spared.
    proof fn lemma_other_space_spared(&self, slot: int, op: MmanOp, a: int, s: int)
        requires
            self.wf(),
            0 <= slot < self.spec_threads().len(),
            self.block_unused(a, s),
            a / (ADDR_SPACE_MAX_SIZE as int) != slot + FIRST_ADDR_SPACE_ID,
            unmaps_within(
                op,
                self.spec_threads()[slot].spec_first() as int,
                self.spec_threads()[slot].spec_first() + ADDR_SPACE_MAX_SIZE,
            ),
        ensures
            spares(op, a, s),
    {
        self.lemma_unused_in_space(a, s);
        let id = a / (ADDR_SPACE_MAX_SIZE as int);
        let ids = slot + FIRST_ADDR_SPACE_ID;
        assert(space_start(id + 1) <= space_start(ids) || space_start(ids + 1) <= space_start(id))
            by (nonlinear_arith)
            requires
                id != ids,
        ;
        assert(space_start(ids + 1) == space_start(ids) + ADDR_SPACE_MAX_SIZE) by (nonlinear_arith);
    }

    /// A thread's allocations lie in its own address space.
    pub proof fn lemma_live_in_own_space(&self, s: int, a: u64)
        requires
            self.wf(),
            0 <= s < self.spec_threads().len(),
            self.spec_threads()[s].is_live(a),
        ensures
            self.addr_slot(a) == Some(s as u64),
            self.is_live(a),
            self.live_size(a) == self.spec_threads()[s].live_size(a),
            space_start(s + FIRST_ADDR_SPACE_ID) <= a,
            a + self.spec_threads()[s].live_size(a) <= space_start(s + FIRST_ADDR_SPACE_ID + 1),
    {
        let t = self.spec_threads()[s];
        t.lemma_halves(a);
        let first = space_start(s + FIRST_ADDR_SPACE_ID);
        assert(first <= a < first + 0x100_0000_0000);
        assert(a as int / 0x100_0000_0000 == s + FIRST_ADDR_SPACE_ID) by (nonlinear_arith)
            requires
                first == (s + 3) * 0x100_0000_0000,
                first <= a < first + 0x100_0000_0000,
        ;
        assert((s + 4) * 0x100_0000_0000 == first + 0x100_0000_0000) by (nonlinear_arith)
            requires
                first == (s + 3) * 0x100_0000_0000,
        ;
    }

    /// No two live allocations overlap.
    pub proof fn lemma_live_disjoint(&self, a: u64, b: u64)
        requires
            self.wf(),
            self.is_live(a),
            self.is_live(b),
            a != b,
        ensures
            regions_disjoint(a as int, self.live_size(a) as int, b as int, self.live_size(b) as int),
    {
        let sa = self.addr_slot(a)->0 as int;
        let sb = self.addr_slot(b)->0 as int;
        self.lemma_live_in_own_space(sa, a);
        self.lemma_live_in_own_space(sb, b);
        if sa == sb {
            self.spec_threads()[sa].lemma_live_disjoint(a, b);
        } else {
            assert(space_start(sa + FIRST_ADDR_SPACE_ID + 1) <= space_start(sb + FIRST_ADDR_SPACE_ID)
                || space_start(sb + FIRST_ADDR_SPACE_ID + 1) <= space_start(sa + FIRST_ADDR_SPACE_ID))
                by (nonlinear_arith)
                requires
                    sa != sb,
            ;
        }
    }

    /// Serves a request of `size` bytes of the thread at `slot` (see
    /// `ThreadMeta::next_addr`). The region handed out overlaps no live
    /// allocation of any thread.
    pub fn tmeta_next_addr(&mut self, slot: u64, size: u64, ops: &mut Vec<MmanOp>) -> (addr: u64)
        requires
            old(self).wf(),
            slot < old(self).spec_threads().len(),
            old(self).spec_threads()[slot as int].can_alloc(size),
        ensures
            final(self).wf(),
            final(self).spec_next_id() == old(self).spec_next_id(),
            final(self).spec_tids() == old(self).spec_tids(),
            final(self).spec_owners() == old(self).spec_owners(),
            final(self).spec_threads().len() == old(self).spec_threads().len(),
            forall|s: int|
                0 <= s < old(self).spec_threads().len() && s != slot
                    ==> #[trigger] final(self).spec_threads()[s] == old(self).spec_threads()[s],
            addr == old(self).spec_threads()[slot as int].next_addr_spec(size),
            final(ops)@ == old(self).spec_threads()[slot as int].next_addr_ops(size, old(ops)@),
            old(self).spec_threads()[slot as int].next_addr_post(
                final(self).spec_threads()[slot as int],
                size,
                addr,
            ),
            old(self).block_unused(addr as int, size as int),
            forall|a: int, s: int| #[trigger]
                final(self).block_unused(a, s) ==> old(self).block_unused(a, s),
            size > 0 ==> forall|s: int| s > 0 ==> !#[trigger] final(self).block_unused(addr as int, s),
            forall|k: int, a: int, s: int|
                old(ops)@.len() <= k < final(ops)@.len() && #[trigger] final(self).block_unused(a, s)
                    ==> spares(#[trigger] final(ops)@[k], a, s),
            addr + size <= final(self).spec_threads()[slot as int].mapped_end(addr as int),
            final(self).is_live(addr),
            final(self).live_size(addr) == size,
            forall|b: u64| #[trigger] final(self).is_live(b) == (old(self).is_live(b) || b == addr),
            forall|b: u64|
                #[trigger] old(self).is_live(b) && b != addr ==> final(self).live_size(b) == old(
                    self,
                ).live_size(b),
            forall|b: u64|
                #[trigger] old(self).is_live(b) && b != addr ==> regions_disjoint(
                    b as int,
                    old(self).live_size(b) as int,
                    addr as int,
                    size as int,
                ),
            forall|k: int, b: u64|
                old(ops)@.len() <= k < final(ops)@.len() && #[trigger] final(self).is_live(b)
                    ==> spares(#[trigger] final(ops)@[k], b as int, final(self).live_size(b) as int),
    {
        let ghost pre = *self;
        let addr = self.threads[slot as usize].next_addr(size, ops);
        proof {
            let s = slot as int;
            let t0 = pre.spec_threads()[s];
            let t1 = self.spec_threads()[s];
            assert forall|q: int| 0 <= q < self.spec_threads().len() implies {
                &&& (#[trigger] self.spec_threads()[q]).wf()
                &&& self.spec_threads()[q].spec_first() == space_start(q + FIRST_ADDR_SPACE_ID)
            } by {
                if q != s {
                    assert(self.spec_threads()[q] == pre.spec_threads()[q]);
                }
            }
            assert(self.tables_wf());
            assert(FIRST_ADDR_SPACE_ID <= self.spec_next_id() <= MAX_THREADS_NO);
            assert(self.spec_threads().len() == self.spec_next_id() - FIRST_ADDR_SPACE_ID);
            assert(self.spec_tids() == pre.spec_tids());
            assert forall|tid: u64| #[trigger] self.spec_tids().contains_key(tid) implies self.spec_tids()[tid]
                < self.spec_threads().len() by {
                assert(pre.spec_tids().contains_key(tid));
            }
            assert(self.wf());
            self.lemma_live_in_own_space(s, addr);
            assert forall|b: u64| #[trigger] self.is_live(b) == (pre.is_live(b) || b == addr) by {
                if self.addr_slot(b) == Some(slot) {
                    assert(t1.is_live(b) == (t0.is_live(b) || b == addr));
                }
            }
            assert forall|b: u64| #[trigger] pre.is_live(b) && b != addr implies self.live_size(b)
                == pre.live_size(b) by {
                let q = pre.addr_slot(b)->0 as int;
                if q != s {
                    assert(self.spec_threads()[q] == pre.spec_threads()[q]);
                }
            }
            assert forall|b: u64| #[trigger] pre.is_live(b) && b != addr implies regions_disjoint(
                b as int,
                pre.live_size(b) as int,
                addr as int,
                size as int,
            ) by {
                let q = pre.addr_slot(b)->0 as int;
                if q == s {
                    assert(t0.is_live(b));
                } else {
                    pre.lemma_live_in_own_space(q, b);
                    assert(space_start(q + FIRST_ADDR_SPACE_ID + 1) <= space_start(s + FIRST_ADDR_SPACE_ID)
                        || space_start(s + FIRST_ADDR_SPACE_ID + 1) <= space_start(q + FIRST_ADDR_SPACE_ID))
                        by (nonlinear_arith)
                        requires q != s;
                }
            }
            self.lemma_ops_spare_others(s, old(ops)@.len() as int, ops@);
            assert(addr as int / (ADDR_SPACE_MAX_SIZE as int) == s + FIRST_ADDR_SPACE_ID);
            assert forall|a: int, x: int| #[trigger] self.block_unused(a, x) implies pre.block_unused(a, x) by {
                let id = a / (ADDR_SPACE_MAX_SIZE as int);
                if FIRST_ADDR_SPACE_ID <= id < self.spec_next_id() && id - FIRST_ADDR_SPACE_ID != s {
                    assert(self.spec_threads()[id - FIRST_ADDR_SPACE_ID] == pre.spec_threads()[id - FIRST_ADDR_SPACE_ID]);
                }
            }
            assert forall|k: int, a: int, x: int|
                old(ops)@.len() <= k < ops@.len() && #[trigger] self.block_unused(a, x) implies spares(
                #[trigger] ops@[k],
                a,
                x,
            ) by {
                let id = a / (ADDR_SPACE_MAX_SIZE as int);
                if id == s + FIRST_ADDR_SPACE_ID {
                    assert(t1.block_unused(a, x));
                } else {
                    self.lemma_other_space_spared(s, ops@[k], a, x);
                }
            }
        }
        addr
    }

    /// What the thread at `s` gives back lies in its own address space, so it
    /// spares the allocations of the other threads.
    proof fn lemma_ops_spare_others(&self, s: int, from: int, ops: Seq<MmanOp>)
        requires
            self.wf(),
            0 <= s < self.spec_threads().len(),
            forall|k: int|
                from <= k < ops.len() ==> {
                    &&& unmaps_within(
                        #[trigger] ops[k],
                        self.spec_threads()[s].spec_first() as int,
                        self.spec_threads()[s].spec_first() + ADDR_SPACE_MAX_SIZE,
                    )
                    &&& forall|b: u64|
                        #[trigger] self.spec_threads()[s].is_live(b) ==> spares(
                            ops[k],
                            b as int,
                            self.spec_threads()[s].live_size(b) as int,
                        )
                },
        ensures
            forall|k: int, b: u64|
                from <= k < ops.len() && #[trigger] self.is_live(b) ==> spares(
                    #[trigger] ops[k],
                    b as int,
                    self.live_size(b) as int,
                ),
    {
        assert forall|k: int, b: u64|
            from <= k < ops.len() && #[trigger] self.is_live(b) implies spares(
            #[trigger] ops[k],
            b as int,
            self.live_size(b) as int,
        ) by {
            let q = self.addr_slot(b)->0 as int;
            self.lemma_live_in_own_space(q, b);
            if q != s {
                assert(space_start(q + FIRST_ADDR_SPACE_ID + 1) <= space_start(s + FIRST_ADDR_SPACE_ID)
                    || space_start(s + FIRST_ADDR_SPACE_ID + 1) <= space_start(q + FIRST_ADDR_SPACE_ID))
                    by (nonlinear_arith)
                    requires
                        q != s,
                ;
                assert(space_start(s + FIRST_ADDR_SPACE_ID + 1) == space_start(s + FIRST_ADDR_SPACE_ID)
                    + ADDR_SPACE_MAX_SIZE) by (nonlinear_arith);
            }
        }
    }

    /// Frees `addr` in the thread at `slot` (see `ThreadMeta::free`); what is
    /// given back spares every live allocation of every thread.
    pub fn tmeta_free(&mut self, slot: u64, addr: u64, ops: &mut Vec<MmanOp>)
        requires
            old(self).wf(),
            slot < old(self).spec_threads().len(),
            !is_small_addr_spec(addr as int) ==> old(self).spec_threads()[slot as int].spec_large().spec_live().contains_key(addr),
        ensures
            final(self).wf(),
            final(self).spec_next_id() == old(self).spec_next_id(),
            final(self).spec_tids() == old(self).spec_tids(),
            final(self).spec_owners() == old(self).spec_owners(),
            final(self).spec_threads().len() == old(self).spec_threads().len(),
            forall|s: int|
                0 <= s < old(self).spec_threads().len() && s != slot
                    ==> #[trigger] final(self).spec_threads()[s] == old(self).spec_threads()[s],
            final(ops)@ == old(self).spec_threads()[slot as int].free_ops(addr, old(ops)@),
            old(self).spec_threads()[slot as int].free_post(final(self).spec_threads()[slot as int], addr),
            forall|a: int, s: int| #[trigger]
                final(self).block_unused(a, s) == old(self).block_unused(a, s),
            forall|k: int, a: int, s: int|
                old(ops)@.len() <= k < final(ops)@.len() && #[trigger] old(self).block_unused(a, s)
                    ==> spares(#[trigger] final(ops)@[k], a, s),
            forall|size: u64| #[trigger]
                old(self).spec_threads()[slot as int].can_alloc(size) ==> final(self).spec_threads()[slot as int].can_alloc(size),
            forall|b: u64| #[trigger] final(self).is_live(b) == (old(self).is_live(b) && !(b == addr
                && old(self).addr_slot(addr) == Some(slot))),
            forall|b: u64| #[trigger] final(self).is_live(b) ==> final(self).live_size(b) == old(self).live_size(b),
            forall|k: int, b: u64|
                old(ops)@.len() <= k < final(ops)@.len() && #[trigger] final(self).is_live(b)
                    ==> spares(#[trigger] final(ops)@[k], b as int, final(self).live_size(b) as int),
    {
        let ghost pre = *self;
        self.threads[slot as usize].free(addr, ops);
        proof {
            let s = slot as int;
            let t0 = pre.spec_threads()[s];
            let t1 = self.spec_threads()[s];
            assert forall|q: int| 0 <= q < self.spec_threads().len() implies {
                &&& (#[trigger] self.spec_threads()[q]).wf()
                &&& self.spec_threads()[q].spec_first() == space_start(q + FIRST_ADDR_SPACE_ID)
            } by {
                if q != s {
                    assert(self.spec_threads()[q] == pre.spec_threads()[q]);
                }
            }
            assert(self.tables_wf());
            assert(self.spec_tids() == pre.spec_tids());
            assert forall|tid: u64| #[trigger] self.spec_tids().contains_key(tid) implies self.spec_tids()[tid]
                < self.spec_threads().len() by {
                assert(pre.spec_tids().contains_key(tid));
            }
            assert(self.wf());
            assert forall|b: u64| #[trigger] self.is_live(b) == (pre.is_live(b) && !(b == addr
                && pre.addr_slot(addr) == Some(slot))) by {
                if self.addr_slot(b) == Some(slot) {
                    assert(t1.is_live(b) == (t0.is_live(b) && b != addr));
                }
                if b == addr && t0.is_live(addr) {
                    pre.lemma_live_in_own_space(s, addr);
                }
            }
            self.lemma_ops_spare_others(s, old(ops)@.len() as int, ops@);
            assert forall|a: int, x: int| #[trigger] self.block_unused(a, x) == pre.block_unused(a, x) by {
                let id = a / (ADDR_SPACE_MAX_SIZE as int);
                if FIRST_ADDR_SPACE_ID <= id < self.spec_next_id() && id - FIRST_ADDR_SPACE_ID != s {
                    assert(self.spec_threads()[id - FIRST_ADDR_SPACE_ID] == pre.spec_threads()[id - FIRST_ADDR_SPACE_ID]);
                }
            }
            assert forall|k: int, a: int, x: int|
                old(ops)@.len() <= k < ops@.len() && #[trigger] pre.block_unused(a, x) implies spares(
                #[trigger] ops@[k],
                a,
                x,
            ) by {
                let id = a / (ADDR_SPACE_MAX_SIZE as int);
                if id == s + FIRST_ADDR_SPACE_ID {
                    assert(t0.block_unused(a, x));
                } else {
                    pre.lemma_other_space_spared(s, ops@[k], a, x);
                }
            }
        }
    }

    /// The requested size of the live allocation at `addr` in the thread at
    /// `slot`, or 0 when there is none.
    pub fn tmeta_usable_size(&self, slot: u64, addr: u64) -> (r: u64)
        requires
            self.wf(),
            slot < self.spec_threads().len(),
        ensures
            r == if self.spec_threads()[slot as int].is_live(addr) {
                self.spec_threads()[slot as int].live_size(addr)
            } else {
                0
            },
    {
        self.threads[slot as usize].usable_size(addr)
    }

    /// Starts with no thread; the first one gets address space
    /// `FIRST_ADDR_SPACE_ID`, whatever `first_addr_space` says.
    pub fn new_in(first_addr_space: u64) -> (meta: Metadata)
        ensures
            meta.wf(),
            meta.spec_next_id() == FIRST_ADDR_SPACE_ID,
            meta.spec_tids() == Map::<u64, u64>::empty(),
            meta.spec_owners() == Seq::<u64>::empty(),
    {
        let mut addr_space2tmeta: Vec<Option<u64>> = Vec::new();
        let mut i: u64 = 0;
        while i < MAX_THREADS_NO
            invariant
                i <= MAX_THREADS_NO,
                addr_space2tmeta@.len() == i,
                forall|j: int| 0 <= j < i ==> #[trigger] addr_space2tmeta@[j] == None::<u64>,
            decreases MAX_THREADS_NO - i,
        {
            addr_space2tmeta.push(None);
            i = i + 1;
        }
        Metadata {
            next_addr_space_id: FIRST_ADDR_SPACE_ID,
            addr_space2tmeta,
            tid2tmeta: U64Map::with_capacity(RESV_THREADS_NO),
            threads: Vec::new(),
            owners: Ghost(Seq::empty()),
        }
    }

    /// Gives thread `tid` the next address space and fresh metadata there.
    pub fn add_new_thread(&mut self, tid: u64, ops: &mut Vec<MmanOp>)
        requires
            old(self).wf(),
            old(self).spec_next_id() < MAX_THREADS_NO,
        ensures
            final(self).wf(),
            final(self).spec_next_id() == old(self).spec_next_id() + 1,
            final(self).spec_owners() == old(self).spec_owners().push(tid),
            final(self).spec_tids() == old(self).spec_tids().insert(
                tid,
                old(self).spec_threads().len() as u64,
            ),
            final(self).spec_threads().len() == old(self).spec_threads().len() + 1,
            forall|b: u64| #[trigger] final(self).is_live(b) == old(self).is_live(b),
            forall|b: u64| #[trigger]
                old(self).is_live(b) ==> final(self).live_size(b) == old(self).live_size(b),
            forall|a: int, s: int| #[trigger]
                final(self).block_unused(a, s) ==> old(self).block_unused(a, s),
            forall|s: int|
                0 <= s < old(self).spec_threads().len() ==> #[trigger] final(self).spec_threads()[s]
                    == old(self).spec_threads()[s],
            ({
                let t = final(self).spec_threads()[old(self).spec_threads().len() as int];
                &&& t.is_fresh(space_start(old(self).spec_next_id() as int) as u64)
                &&& forall|a: u64| !t.is_live(a)
                &&& forall|size: u64| size <= LARGE_ADDR_SPACE_OFFSET ==> #[trigger] t.can_alloc(size)
                &&& forall|size: u64, s: Seq<MmanOp>|
                    size <= LARGE_ADDR_SPACE_OFFSET ==> #[trigger] t.next_addr_ops(size, s)
                        == fresh_thread_ops(space_start(old(self).spec_next_id() as int), size, s)
                &&& forall|size: u64| #[trigger]
                    t.next_addr_spec(size) == space_start(old(self).spec_next_id() as int) + if size
                        < POOL_SIZE {
                        bin_index_spec(size as int) * POOL_SIZE
                    } else {
                        LARGE_ADDR_SPACE_OFFSET as int
                    }
            }),
            ({
                let first = space_start(old(self).spec_next_id() as int);
                final(ops)@ == old(ops)@.push(MmanOp::Mmap { addr: first as u64, size: TANK_SIZE }).push(
                    MmanOp::Mmap { addr: (first + LARGE_ADDR_SPACE_OFFSET) as u64, size: TANK_SIZE },
                )
            }),
    {
        let ghost pre = *self;
        // new thread => new address space
        let addr_space_id = self.next_addr_space_id;
        let addr_space = get_address_space_for_id(addr_space_id);
        self.next_addr_space_id = self.next_addr_space_id + 1;
        proof {
            assert(addr_space == space_start(addr_space_id as int));
            assert(addr_space % ADDR_SPACE_MAX_SIZE == 0) by (nonlinear_arith)
                requires
                    addr_space == addr_space_id * 0x100_0000_0000,
            ;
        }
        // new thread => new metadata, new mappings
        let slot = self.threads.len() as u64;
        let tmeta = ThreadMeta::new_in(addr_space, ops);
        self.threads.push(tmeta);
        self.tid2tmeta.insert(tid, slot);
        proof {
            self.owners@ = self.owners@.push(tid);
        }
        self.addr_space2tmeta.set(addr_space_id as usize, Some(slot));
        proof {
            assert forall|id: int| 0 <= id < MAX_THREADS_NO implies #[trigger] self.addr_space2tmeta@[id]
                == if FIRST_ADDR_SPACE_ID <= id < self.next_addr_space_id {
                Some((id - FIRST_ADDR_SPACE_ID) as u64)
            } else {
                None
            } by {}
            assert(self.tables_wf());
            assert forall|t: u64| #[trigger] self.spec_tids().contains_key(t) implies self.spec_tids()[t] < self.spec_threads().len()
                && self.spec_owners()[self.spec_tids()[t] as int] == t by {
                if t != tid {
                    assert(pre.spec_tids().contains_key(t));
                }
            }
            assert forall|s: int| 0 <= s < self.spec_threads().len() implies {
                &&& (#[trigger] self.spec_threads()[s]).wf()
                &&& self.spec_threads()[s].spec_first() == space_start(s + FIRST_ADDR_SPACE_ID)
            } by {
                if s < pre.spec_threads().len() {
                    assert(self.spec_threads()[s] == pre.spec_threads()[s]);
                }
            }
            assert forall|b: u64| #[trigger] self.is_live(b) == pre.is_live(b) by {
                if pre.is_live(b) {
                    let q = pre.addr_slot(b)->0 as int;
                    assert(self.spec_threads()[q] == pre.spec_threads()[q]);
                }
                if self.is_live(b) {
                    let q = self.addr_slot(b)->0 as int;
                    if q < pre.spec_threads().len() {
                        assert(self.spec_threads()[q] == pre.spec_threads()[q]);
                    }
                }
            }
            assert forall|b: u64| #[trigger] pre.is_live(b) implies self.live_size(b) == pre.live_size(b) by {
                let q = pre.addr_slot(b)->0 as int;
                assert(self.spec_threads()[q] == pre.spec_threads()[q]);
            }
            assert forall|a: int, x: int| #[trigger] self.block_unused(a, x) implies pre.block_unused(a, x) by {
                let id = a / (ADDR_SPACE_MAX_SIZE as int);
                if FIRST_ADDR_SPACE_ID <= id < pre.spec_next_id() {
                    assert(self.spec_threads()[id - FIRST_ADDR_SPACE_ID] == pre.spec_threads()[id - FIRST_ADDR_SPACE_ID]);
                } else if id == pre.spec_next_id() {
                    self.spec_threads()[id - FIRST_ADDR_SPACE_ID].lemma_unused_in_space(a, x);
                    assert(space_start(id + 1) == space_start(id) + ADDR_SPACE_MAX_SIZE) by (nonlinear_arith);
                }
            }
        }
    }

    /// Whether another thread can get an address space.
    pub fn has_free_space(&self) -> (r: bool)
        ensures
            r == (self.spec_next_id() < MAX_THREADS_NO),
    {
        self.next_addr_space_id < MAX_THREADS_NO
    }

    /// Whether the thread at `slot` can serve `size` bytes.
    pub fn tmeta_check_alloc(&self, slot: u64, size: u64) -> (r: bool)
        requires
            self.wf(),
            slot < self.spec_threads().len(),
        ensures
            r == self.spec_threads()[slot as int].can_alloc(size),
    {
        self.threads[slot as usize].check_alloc(size)
    }

    /// Whether the thread at `slot` can free `addr`.
    pub fn tmeta_check_free(&self, slot: u64, addr: u64) -> (r: bool)
        requires
            self.wf(),
            slot < self.spec_threads().len(),
        ensures
            r == (!is_small_addr_spec(addr as int) ==> self.spec_threads()[slot as int].spec_large().spec_live().contains_key(addr)),
    {
        self.threads[slot as usize].check_free(addr)
    }

    /// Slot of thread `tid`, if it has allocated before.
    pub fn get_tmeta(&self, tid: u64) -> (r: Option<u64>)
        ensures
            r == self.spec_tids().get(tid),
    {
        self.tid2tmeta.get(tid)
    }

    /// Slot of the thread whose address space `addr` lies in, if any.
    pub fn get_addr_tmeta(&self, addr: u64) -> (r: Option<u64>)
        requires
            self.wf(),
            (addr as int) / (ADDR_SPACE_MAX_SIZE as int) < MAX_THREADS_NO,
        ensures
            r == self.addr_slot(addr),
    {
        self.addr_space2tmeta[get_address_space_id(addr) as usize]
    }
}

} // verus!
