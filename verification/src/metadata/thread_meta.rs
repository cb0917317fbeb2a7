pub mod addr_meta;
pub mod large_allocator;
pub mod pool_allocator;
pub mod small_alloc;
pub mod small_allocator;

use vstd::prelude::*;

use crate::metadata::thread_meta::large_allocator::{lemma_page_facts, LargeAllocator};
use crate::metadata::thread_meta::large_allocator::large_meta::LargeMeta;
use crate::metadata::thread_meta::small_allocator::small_meta::SmallMeta;
use crate::metadata::thread_meta::small_allocator::{
    bin_index_spec, lemma_aligned_is_own_align_up, lemma_bin_index, lemma_pool_starts_apart, nth_pool,
    SmallAllocator,
};
use crate::utils::consts::{
    ADDR_SPACE_MAX_SIZE, BINS_NO, LARGE_ADDR_SPACE_OFFSET, POOL_SIZE, STANDARD_ALIGN, TANK_SIZE,
};
use crate::utils::mman_ops::MmanOp;
use crate::utils::{
    align_down_spec, align_up, align_up_spec, get_addr_space, is_small_addr, lemma_align_consts_pow2,
    regions_disjoint, spares, unmaps_within,
};

verus! {

/// Whether `addr` lies in the lower half of its address space.
pub open spec fn is_small_addr_spec(addr: int) -> bool {
    addr % (ADDR_SPACE_MAX_SIZE as int) < LARGE_ADDR_SPACE_OFFSET
}

/// The operations that a thread just set up at `first` issues to serve
/// `size` bytes, after `ops`: none for a request that its first tanks hold,
/// else the mapping that extends its large region.
pub open spec fn fresh_thread_ops(first: int, size: u64, ops: Seq<MmanOp>) -> Seq<MmanOp> {
    if size < POOL_SIZE || size <= TANK_SIZE {
        ops
    } else {
        let last = first + LARGE_ADDR_SPACE_OFFSET + TANK_SIZE;
        let n = first + LARGE_ADDR_SPACE_OFFSET + size;
        ops.push(
            MmanOp::Mmap {
                addr: last as u64,
                size: (if n - last >= TANK_SIZE {
                    n - last + TANK_SIZE
                } else {
                    TANK_SIZE as int
                }) as u64,
            },
        )
    }
}

/// A thread's allocator: requests below a pool go to the small allocator in
/// the lower half of the thread's address space, the others to the large
/// allocator in the upper half.
pub struct ThreadMeta {
    small_alloc: SmallAllocator,
    large_alloc: LargeAllocator,
    first: Ghost<u64>,
}

impl ThreadMeta {
    pub closed spec fn spec_small(&self) -> SmallAllocator {
        self.small_alloc
    }

    pub closed spec fn spec_large(&self) -> LargeAllocator {
        self.large_alloc
    }

    /// Start of the thread's address space.
    pub closed spec fn spec_first(&self) -> u64 {
        self.first@
    }

    /// An allocation of the thread lives at `a`.
    pub open spec fn is_live(&self, a: u64) -> bool {
        self.spec_small().spec_live().contains_key(a) || self.spec_large().spec_live().contains_key(
            a,
        )
    }

    /// The requested size of the live allocation at `a`.
    pub open spec fn live_size(&self, a: u64) -> u64 {
        if self.spec_small().spec_live().contains_key(a) {
            self.spec_small().spec_live()[a].size
        } else {
            self.spec_large().spec_live()[a].size
        }
    }

    /// The thread's invariant: each half is well formed and stays in its half.
    pub open spec fn wf(&self) -> bool {
        let first = self.spec_first();
        &&& self.spec_small().wf()
        &&& self.spec_large().wf()
        &&& first % ADDR_SPACE_MAX_SIZE == 0
        &&& first + ADDR_SPACE_MAX_SIZE <= u64::MAX
        &&& self.spec_small().spec_base() == first
        &&& self.spec_small().frontier() < first + LARGE_ADDR_SPACE_OFFSET
        &&& self.spec_large().spec_base() == first + LARGE_ADDR_SPACE_OFFSET
        &&& self.spec_large().spec_next() <= first + ADDR_SPACE_MAX_SIZE
        &&& forall|i: int|
            0 <= i < BINS_NO ==> (#[trigger] self.spec_small().spec_bin_pool(i)).spec_next()
                <= self.spec_small().spec_bin_pool(i).spec_end()
    }

    /// How `next_addr(size)` changes the thread's allocators into `post`
    /// when it hands out `addr`: the one that serves `size` changes as its
    /// `next_addr` does, the other stays.
    pub open spec fn next_addr_post(&self, post: ThreadMeta, size: u64, addr: u64) -> bool {
        &&& post.spec_first() == self.spec_first()
        &&& if size < POOL_SIZE {
            &&& self.spec_small().next_addr_post(post.spec_small(), size, addr)
            &&& post.spec_large() == self.spec_large()
        } else {
            &&& self.spec_large().next_addr_post(post.spec_large(), size, addr)
            &&& post.spec_small() == self.spec_small()
        }
    }

    /// How `free(addr)` changes the thread's allocators into `post`: the one
    /// whose half holds `addr` changes as its `free` does, the other stays.
    pub open spec fn free_post(&self, post: ThreadMeta, addr: u64) -> bool {
        &&& post.spec_first() == self.spec_first()
        &&& if is_small_addr_spec(addr as int) {
            &&& self.spec_small().free_post(post.spec_small(), addr)
            &&& post.spec_large() == self.spec_large()
        } else {
            &&& self.spec_large().free_post(post.spec_large(), addr)
            &&& post.spec_small() == self.spec_small()
        }
    }

    /// The thread's allocators as `new_in(first)` sets them up: bin `i` of
    /// the small allocator carves from the `i`-th pool from `first`, held by
    /// the bin alone, the first tank of each half is mapped, and nothing is
    /// allocated.
    pub open spec fn is_fresh(&self, first: u64) -> bool {
        let sa = self.spec_small();
        let la = self.spec_large();
        &&& self.spec_first() == first
        &&& sa.spec_base() == first
        &&& sa.spec_live() == Map::<u64, SmallMeta>::empty()
        &&& sa.frontier() == first + BINS_NO * POOL_SIZE
        &&& sa.spec_pool_alloc().spec_last_mapped() == first + TANK_SIZE
        &&& forall|i: int|
            0 <= i < BINS_NO ==> {
                let p = #[trigger] sa.spec_bin_pool(i);
                &&& p.spec_start() == first + i * POOL_SIZE
                &&& p.spec_next() == p.spec_start()
                &&& p.spec_end() == p.spec_start() + POOL_SIZE
                &&& sa.spec_refs()[p.spec_start()] == 1
            }
        &&& forall|p: u64|
            #[trigger] sa.spec_refs().contains_key(p) <==> exists|i: int|
                0 <= i < BINS_NO && p == #[trigger] nth_pool(first, i)
        &&& la.spec_live() == Map::<u64, LargeMeta>::empty()
        &&& la.spec_base() == first + LARGE_ADDR_SPACE_OFFSET
        &&& la.spec_next() == first + LARGE_ADDR_SPACE_OFFSET
        &&& la.spec_last_mapped() == first + LARGE_ADDR_SPACE_OFFSET + TANK_SIZE
    }

    /// `[a, a + s)` lies where the thread has handed nothing out yet: past
    /// the bump pointer of the pool of a bin, from the small allocator's
    /// frontier up to the upper half, or past the large allocator's bump
    /// pointer.
    pub open spec fn block_unused(&self, a: int, s: int) -> bool {
        let first = self.spec_first() as int;
        let sa = self.spec_small();
        &&& 0 <= s
        &&& {
            ||| sa.frontier() <= a && a + s <= first + LARGE_ADDR_SPACE_OFFSET
            ||| exists|i: int|
                0 <= i < BINS_NO && (#[trigger] sa.spec_bin_pool(i)).spec_next() <= a && a + s
                    <= sa.spec_bin_pool(i).spec_end()
            ||| self.spec_large().spec_next() <= a && a + s <= first + ADDR_SPACE_MAX_SIZE
        }
    }

    /// A live allocation lies apart from every block that is unused.
    pub proof fn lemma_live_apart_from_unused(&self, a: u64, x: int, s: int)
        requires
            self.wf(),
            self.is_live(a),
            self.block_unused(x, s),
        ensures
            regions_disjoint(a as int, self.live_size(a) as int, x, s),
    {
        let sa = self.spec_small();
        let la = self.spec_large();
        self.lemma_halves(a);
        lemma_page_facts(la.spec_next() as int);
        if exists|j: int|
            0 <= j < BINS_NO && (#[trigger] sa.spec_bin_pool(j)).spec_next() <= x && x + s
                <= sa.spec_bin_pool(j).spec_end() {
            let j = choose|j: int|
                0 <= j < BINS_NO && (#[trigger] sa.spec_bin_pool(j)).spec_next() <= x && x + s
                    <= sa.spec_bin_pool(j).spec_end();
            let r = sa.spec_bin_pool(j);
            assert(sa.spec_refs().contains_key(r.spec_start()));
            if sa.spec_live().contains_key(a) {
                let m = sa.spec_live()[a];
                assert(a + m.size <= r.spec_next() || a >= r.spec_end());
            }
        }
    }

    /// What the thread has not handed out lies in its own address space.
    pub proof fn lemma_unused_in_space(&self, a: int, s: int)
        requires
            self.wf(),
            self.block_unused(a, s),
        ensures
            self.spec_first() <= a,
            a + s <= self.spec_first() + ADDR_SPACE_MAX_SIZE,
    {
        let sa = self.spec_small();
        let la = self.spec_large();
        lemma_page_facts(la.spec_next() as int);
        if exists|i: int|
            0 <= i < BINS_NO && (#[trigger] sa.spec_bin_pool(i)).spec_next() <= a && a + s
                <= sa.spec_bin_pool(i).spec_end() {
            let i = choose|i: int|
                0 <= i < BINS_NO && (#[trigger] sa.spec_bin_pool(i)).spec_next() <= a && a + s
                    <= sa.spec_bin_pool(i).spec_end();
            let p = sa.spec_bin_pool(i);
            assert(sa.spec_refs().contains_key(p.spec_start()));
        }
    }

    /// End of the region mapped so far in the half of the thread's space
    /// that holds `a`.
    pub open spec fn mapped_end(&self, a: int) -> int {
        if is_small_addr_spec(a) {
            self.spec_small().spec_pool_alloc().spec_last_mapped() as int
        } else {
            self.spec_large().spec_last_mapped() as int
        }
    }

    /// A pool that nothing holds any more lies apart from every unused block.
    proof fn lemma_dead_pool_spares(&self, op: MmanOp, a: int, s: int)
        requires
            self.wf(),
            self.spec_small().gives_back_dead_pool(op),
            self.block_unused(a, s),
        ensures
            spares(op, a, s),
    {
        let sa = self.spec_small();
        lemma_page_facts(self.spec_large().spec_next() as int);
        if let MmanOp::Munmap { addr: x, size: sz } = op {
            if exists|j: int|
                0 <= j < BINS_NO && (#[trigger] sa.spec_bin_pool(j)).spec_next() <= a && a + s
                    <= sa.spec_bin_pool(j).spec_end() {
                let j = choose|j: int|
                    0 <= j < BINS_NO && (#[trigger] sa.spec_bin_pool(j)).spec_next() <= a && a + s
                        <= sa.spec_bin_pool(j).spec_end();
                let r = sa.spec_bin_pool(j);
                assert(sa.spec_refs().contains_key(r.spec_start()));
                lemma_pool_starts_apart(sa.frontier() as int, r.spec_start() as int, x as int);
            }
        }
    }

    /// A request served by `next_addr` lands where nothing was handed out,
    /// what is left unused after it was unused before, and a request of
    /// some bytes leaves no block of some bytes at its address unused.
    proof fn lemma_next_addr_unused(pre: ThreadMeta, post: ThreadMeta, size: u64, addr: u64)
        requires
            pre.wf(),
            post.wf(),
            pre.can_alloc(size),
            pre.next_addr_post(post, size, addr),
            addr == pre.next_addr_spec(size),
        ensures
            pre.block_unused(addr as int, size as int),
            forall|a: int, s: int| #[trigger] post.block_unused(a, s) ==> pre.block_unused(a, s),
            size > 0 ==> forall|s: int| s > 0 ==> !#[trigger] post.block_unused(addr as int, s),
    {
        let first = pre.spec_first() as int;
        let sa = pre.spec_small();
        let sb = post.spec_small();
        let la = pre.spec_large();
        let lb = post.spec_large();
        lemma_page_facts(la.spec_next() as int);
        lemma_page_facts(lb.spec_next() as int);
        if size < POOL_SIZE {
            let i = bin_index_spec(size as int);
            lemma_bin_index(size as int, size as int);
            let p = sa.spec_bin_pool(i);
            let q = sb.spec_bin_pool(i);
            let a = align_up_spec(p.spec_next() as int, STANDARD_ALIGN as int);
            assert(a >= p.spec_next()) by (nonlinear_arith)
                requires
                    a == ((p.spec_next() + 16 - 1) / 16) * 16,
                    p.spec_next() >= 0,
            ;
            let in_pool = a + size <= p.spec_end();
            assert(sa.spec_refs().contains_key(p.spec_start()));
            assert(sb.spec_refs().contains_key(q.spec_start()));
            if in_pool {
                assert(sa.spec_bin_pool(i).spec_next() <= addr && addr + size <= sa.spec_bin_pool(
                    i,
                ).spec_end());
            }
            assert(pre.block_unused(addr as int, size as int));
            assert forall|x: int, s: int| #[trigger] post.block_unused(x, s) implies pre.block_unused(
                x,
                s,
            ) by {
                if exists|j: int|
                    0 <= j < BINS_NO && (#[trigger] sb.spec_bin_pool(j)).spec_next() <= x && x + s
                        <= sb.spec_bin_pool(j).spec_end() {
                    let j = choose|j: int|
                        0 <= j < BINS_NO && (#[trigger] sb.spec_bin_pool(j)).spec_next() <= x && x
                            + s <= sb.spec_bin_pool(j).spec_end();
                    if j != i {
                        assert(sa.spec_bin_pool(j) == sb.spec_bin_pool(j));
                    } else if in_pool {
                        assert(sa.spec_bin_pool(i).spec_next() <= x && x + s <= sa.spec_bin_pool(
                            i,
                        ).spec_end());
                    }
                }
            }
            if size > 0 {
                assert forall|s: int| s > 0 implies !#[trigger] post.block_unused(addr as int, s) by {
                    if exists|j: int|
                        0 <= j < BINS_NO && (#[trigger] sb.spec_bin_pool(j)).spec_next() <= addr
                            && addr + s <= sb.spec_bin_pool(j).spec_end() {
                        let j = choose|j: int|
                            0 <= j < BINS_NO && (#[trigger] sb.spec_bin_pool(j)).spec_next() <= addr
                                && addr + s <= sb.spec_bin_pool(j).spec_end();
                        let r = sb.spec_bin_pool(j);
                        if j != i {
                            assert(sb.spec_refs().contains_key(r.spec_start()));
                            assert(r.spec_start() != q.spec_start());
                            lemma_pool_starts_apart(
                                sb.frontier() as int,
                                r.spec_start() as int,
                                q.spec_start() as int,
                            );
                        }
                    }
                }
            }
        } else {
            let a = align_up_spec(la.spec_next() as int, STANDARD_ALIGN as int);
            assert(a >= la.spec_next()) by (nonlinear_arith)
                requires
                    a == ((la.spec_next() + 16 - 1) / 16) * 16,
                    la.spec_next() >= 0,
            ;
            assert(pre.block_unused(addr as int, size as int));
            assert forall|x: int, s: int| #[trigger] post.block_unused(x, s) implies pre.block_unused(
                x,
                s,
            ) by {
                if exists|j: int|
                    0 <= j < BINS_NO && (#[trigger] sb.spec_bin_pool(j)).spec_next() <= x && x + s
                        <= sb.spec_bin_pool(j).spec_end() {
                    let j = choose|j: int|
                        0 <= j < BINS_NO && (#[trigger] sb.spec_bin_pool(j)).spec_next() <= x && x
                            + s <= sb.spec_bin_pool(j).spec_end();
                    assert(sa.spec_bin_pool(j) == sb.spec_bin_pool(j));
                }
            }
            if size > 0 {
                assert forall|s: int| s > 0 implies !#[trigger] post.block_unused(addr as int, s) by {
                    if exists|j: int|
                        0 <= j < BINS_NO && (#[trigger] sb.spec_bin_pool(j)).spec_next() <= addr
                            && addr + s <= sb.spec_bin_pool(j).spec_end() {
                        let j = choose|j: int|
                            0 <= j < BINS_NO && (#[trigger] sb.spec_bin_pool(j)).spec_next() <= addr
                                && addr + s <= sb.spec_bin_pool(j).spec_end();
                        assert(sb.spec_refs().contains_key(sb.spec_bin_pool(j).spec_start()));
                    }
                }
            }
        }
    }

    /// A free changes nothing of what is unused, and what it gives back
    /// spares every unused block.
    proof fn lemma_free_unused(pre: ThreadMeta, post: ThreadMeta, addr: u64, old_ops: Seq<MmanOp>, ops: Seq<MmanOp>)
        requires
            pre.wf(),
            post.wf(),
            pre.free_post(post, addr),
            old_ops.len() <= ops.len(),
            is_small_addr_spec(addr as int) ==> match pre.spec_small().spec_live().get(addr) {
                Some(m) => if pre.spec_small().spec_refs()[m.pool] == 1 {
                    &&& ops == old_ops.push(MmanOp::Munmap { addr: m.pool, size: POOL_SIZE })
                    &&& !post.spec_small().bin_holds(m.pool)
                } else {
                    ops == old_ops
                },
                None => ops == old_ops,
            },
            !is_small_addr_spec(addr as int) ==> forall|k: int|
                old_ops.len() <= k < ops.len() ==> unmaps_within(
                    #[trigger] ops[k],
                    pre.spec_large().spec_base() as int,
                    pre.spec_large().spec_next() as int,
                ),
        ensures
            forall|a: int, s: int| #[trigger] post.block_unused(a, s) == pre.block_unused(a, s),
            forall|k: int, a: int, s: int|
                old_ops.len() <= k < ops.len() && #[trigger] pre.block_unused(a, s) ==> spares(
                    #[trigger] ops[k],
                    a,
                    s,
                ),
    {
        let first = pre.spec_first() as int;
        let sa = pre.spec_small();
        let sb = post.spec_small();
        let la = pre.spec_large();
        lemma_page_facts(la.spec_next() as int);
        assert forall|a: int, s: int| #[trigger] post.block_unused(a, s) == pre.block_unused(a, s) by {
            if exists|j: int|
                0 <= j < BINS_NO && (#[trigger] sb.spec_bin_pool(j)).spec_next() <= a && a + s
                    <= sb.spec_bin_pool(j).spec_end() {
                let j = choose|j: int|
                    0 <= j < BINS_NO && (#[trigger] sb.spec_bin_pool(j)).spec_next() <= a && a + s
                        <= sb.spec_bin_pool(j).spec_end();
                assert(sa.spec_bin_pool(j) == sb.spec_bin_pool(j));
            }
            if exists|j: int|
                0 <= j < BINS_NO && (#[trigger] sa.spec_bin_pool(j)).spec_next() <= a && a + s
                    <= sa.spec_bin_pool(j).spec_end() {
                let j = choose|j: int|
                    0 <= j < BINS_NO && (#[trigger] sa.spec_bin_pool(j)).spec_next() <= a && a + s
                        <= sa.spec_bin_pool(j).spec_end();
                assert(sa.spec_bin_pool(j) == sb.spec_bin_pool(j));
            }
        }
        assert forall|k: int, a: int, s: int|
            old_ops.len() <= k < ops.len() && #[trigger] pre.block_unused(a, s) implies spares(
            #[trigger] ops[k],
            a,
            s,
        ) by {
            let bin_case = exists|j: int|
                0 <= j < BINS_NO && (#[trigger] sa.spec_bin_pool(j)).spec_next() <= a && a + s
                    <= sa.spec_bin_pool(j).spec_end();
            if bin_case {
                let j = choose|j: int|
                    0 <= j < BINS_NO && (#[trigger] sa.spec_bin_pool(j)).spec_next() <= a && a + s
                        <= sa.spec_bin_pool(j).spec_end();
                assert(sa.spec_refs().contains_key(sa.spec_bin_pool(j).spec_start()));
            }
            if is_small_addr_spec(addr as int) {
                let m = sa.spec_live()[addr];
                assert(sa.spec_live().contains_key(addr));
                assert(sa.spec_refs()[m.pool] == 1);
                assert(ops[k] == MmanOp::Munmap { addr: m.pool, size: POOL_SIZE });
                assert(sa.spec_refs().contains_key(m.pool));
                if bin_case {
                    let j = choose|j: int|
                        0 <= j < BINS_NO && (#[trigger] sa.spec_bin_pool(j)).spec_next() <= a && a
                            + s <= sa.spec_bin_pool(j).spec_end();
                    let r = sa.spec_bin_pool(j);
                    assert(sb.spec_bin_pool(j) == r);
                    assert(r.spec_start() != m.pool);
                    lemma_pool_starts_apart(sa.frontier() as int, r.spec_start() as int, m.pool as int);
                }
            } else {
                assert(unmaps_within(ops[k], la.spec_base() as int, la.spec_next() as int));
            }
        }
    }

    /// A request below a pool can always be served while the small region
    /// stays a pool below the upper half of the thread's space, whether or
    /// not it fits the current pool of its bin.
    pub proof fn lemma_can_alloc_small(&self, size: u64)
        requires
            self.wf(),
            size < POOL_SIZE,
            self.spec_small().frontier() + POOL_SIZE < self.spec_first() + LARGE_ADDR_SPACE_OFFSET,
        ensures
            self.can_alloc(size),
    {
        let sa = self.spec_small();
        let i = bin_index_spec(size as int);
        lemma_bin_index(size as int, size as int);
        let p = sa.spec_bin_pool(i);
        assert(sa.spec_refs().contains_key(p.spec_start()));
        sa.lemma_refs_bounded(p.spec_start());
        let a = align_up_spec(p.spec_next() as int, STANDARD_ALIGN as int);
        assert(a <= p.spec_next() + 15) by (nonlinear_arith)
            requires
                a == ((p.spec_next() + 16 - 1) / 16) * 16,
                p.spec_next() >= 0,
        ;
        assert(p.spec_next() <= p.spec_end());
    }

    /// A request of a pool or more can be served while the large region
    /// has room for it, with a tank to spare, below the end of the thread's
    /// space.
    pub proof fn lemma_can_alloc_large(&self, size: u64)
        requires
            self.wf(),
            POOL_SIZE <= size,
            self.spec_large().spec_next() + STANDARD_ALIGN + size + TANK_SIZE <= self.spec_first()
                + ADDR_SPACE_MAX_SIZE,
        ensures
            self.can_alloc(size),
    {
        let la = self.spec_large();
        let a = align_up_spec(la.spec_next() as int, STANDARD_ALIGN as int);
        assert(a <= la.spec_next() + 15) by (nonlinear_arith)
            requires
                a == ((la.spec_next() + 16 - 1) / 16) * 16,
                la.spec_next() >= 0,
        ;
    }

    /// Whether `next_addr(size)` can run without an arithmetic overflow and
    /// without leaving the half of the thread's space that serves `size`.
    pub open spec fn can_alloc(&self, size: u64) -> bool {
        if size < POOL_SIZE {
            let sa = self.spec_small();
            let p = sa.spec_bin_pool(bin_index_spec(size as int));
            let a = align_up_spec(p.spec_next() as int, STANDARD_ALIGN as int);
            &&& sa.can_alloc(size)
            &&& a + size > p.spec_end() ==> sa.frontier() + POOL_SIZE < self.spec_first()
                + LARGE_ADDR_SPACE_OFFSET
        } else {
            let la = self.spec_large();
            &&& la.can_alloc(size)
            &&& la.next_addr_spec(size) + size <= self.spec_first() + ADDR_SPACE_MAX_SIZE
        }
    }

    /// The address that `next_addr(size)` hands out.
    pub open spec fn next_addr_spec(&self, size: u64) -> int {
        if size < POOL_SIZE {
            self.spec_small().next_addr_spec(size)
        } else {
            self.spec_large().next_addr_spec(size)
        }
    }

    /// The operations that `next_addr(size)` issues, after `ops`.
    pub open spec fn next_addr_ops(&self, size: u64, ops: Seq<MmanOp>) -> Seq<MmanOp> {
        if size < POOL_SIZE {
            self.spec_small().next_addr_ops(size, ops)
        } else {
            self.spec_large().next_addr_ops(size, ops)
        }
    }

    /// The operations that `free(addr)` issues, after `ops`.
    pub open spec fn free_ops(&self, addr: u64, ops: Seq<MmanOp>) -> Seq<MmanOp> {
        if is_small_addr_spec(addr as int) {
            self.spec_small().free_ops(addr, ops)
        } else {
            self.spec_large().free_ops(addr, ops)
        }
    }

    /// Every live allocation lies in the half of the thread's space that
    /// served it.
    pub proof fn lemma_halves(&self, a: u64)
        requires
            self.wf(),
        ensures
            self.spec_small().spec_live().contains_key(a) ==> {
                &&& self.spec_first() <= a
                &&& a + self.spec_small().spec_live()[a].size <= self.spec_small().frontier()
                &&& a < self.spec_first() + LARGE_ADDR_SPACE_OFFSET
                &&& is_small_addr_spec(a as int)
            },
            self.spec_large().spec_live().contains_key(a) ==> {
                &&& self.spec_first() + LARGE_ADDR_SPACE_OFFSET <= a
                &&& a + self.spec_large().spec_live()[a].size <= self.spec_first()
                    + ADDR_SPACE_MAX_SIZE
                &&& !is_small_addr_spec(a as int)
            },
    {
        let first = self.spec_first() as int;
        if self.spec_small().spec_live().contains_key(a) {
            let m = self.spec_small().spec_live()[a];
            assert(self.spec_small().spec_refs().contains_key(m.pool));
            assert(first <= a < first + 0x80_0000_0000);
            assert((a as int) % 0x100_0000_0000 < 0x80_0000_0000) by (nonlinear_arith)
                requires
                    first % 0x100_0000_0000 == 0,
                    first <= a < first + 0x80_0000_0000,
            ;
        }
        if self.spec_large().spec_live().contains_key(a) {
            let m = self.spec_large().spec_live()[a];
            assert(first + 0x80_0000_0000 <= a < first + 0x100_0000_0000);
            assert((a as int) % 0x100_0000_0000 >= 0x80_0000_0000) by (nonlinear_arith)
                requires
                    first % 0x100_0000_0000 == 0,
                    first + 0x80_0000_0000 <= a < first + 0x100_0000_0000,
            ;
        }
    }

    /// No two live allocations of the thread overlap.
    pub proof fn lemma_live_disjoint(&self, a: u64, b: u64)
        requires
            self.wf(),
            self.is_live(a),
            self.is_live(b),
            a != b,
        ensures
            regions_disjoint(a as int, self.live_size(a) as int, b as int, self.live_size(b) as int),
    {
        self.lemma_halves(a);
        self.lemma_halves(b);
        let sl = self.spec_small().spec_live();
        let ll = self.spec_large().spec_live();
        if sl.contains_key(a) && sl.contains_key(b) {
            assert(regions_disjoint(a as int, sl[a].size as int, b as int, sl[b].size as int));
        } else if ll.contains_key(a) && ll.contains_key(b) {
            if a < b {
                assert(a + ll[a].size <= b);
            } else {
                assert(b + ll[b].size <= a);
            }
        }
    }

    /// Whether `next_addr(size)` can run.
    pub fn check_alloc(&self, size: u64) -> (r: bool)
        requires
            self.wf(),
        ensures
            r == self.can_alloc(size),
    {
        proof {
            lemma_align_consts_pow2();
        }
        let frontier = self.small_alloc.frontier_addr();
        let first = get_addr_space(frontier);
        proof {
            let f = self.spec_first() as int;
            assert(align_down_spec(frontier as int, 0x100_0000_0000) == f) by (nonlinear_arith)
                requires
                    f % 0x100_0000_0000 == 0,
                    f <= frontier < f + 0x80_0000_0000,
                    align_down_spec(frontier as int, 0x100_0000_0000) == (frontier as int
                        / 0x100_0000_0000) * 0x100_0000_0000,
            ;
        }
        if size < POOL_SIZE {
            let (ok, fresh) = self.small_alloc.check_alloc(size);
            ok && (!fresh || frontier + POOL_SIZE < first + LARGE_ADDR_SPACE_OFFSET)
        } else {
            if !self.large_alloc.check_alloc(size) {
                return false;
            }
            let a = align_up(self.large_alloc.next_free(), STANDARD_ALIGN);
            a + size <= first + ADDR_SPACE_MAX_SIZE
        }
    }

    /// Whether `free(addr)` can run: an address in the upper half must be a
    /// live large allocation.
    pub fn check_free(&self, addr: u64) -> (r: bool)
        ensures
            r == (!is_small_addr_spec(addr as int) ==> self.spec_large().spec_live().contains_key(
                addr,
            )),
    {
        is_small_addr(addr) || self.large_alloc.contains(addr)
    }

    /// Sets up the allocators of the thread whose address space starts at
    /// `first_addr`; each maps its first tank.
    #[verifier::spinoff_prover]
    #[verifier::rlimit(40)]
    pub fn new_in(first_addr: u64, ops: &mut Vec<MmanOp>) -> (tm: ThreadMeta)
        requires
            first_addr % ADDR_SPACE_MAX_SIZE == 0,
            first_addr + ADDR_SPACE_MAX_SIZE <= u64::MAX,
        ensures
            tm.wf(),
            tm.is_fresh(first_addr),
            forall|a: u64| !tm.is_live(a),
            forall|size: u64| size <= LARGE_ADDR_SPACE_OFFSET ==> #[trigger] tm.can_alloc(size),
            forall|size: u64| #[trigger]
                tm.next_addr_spec(size) == first_addr + if size < POOL_SIZE {
                    bin_index_spec(size as int) * POOL_SIZE
                } else {
                    LARGE_ADDR_SPACE_OFFSET as int
                },
            forall|size: u64, s: Seq<MmanOp>|
                size <= LARGE_ADDR_SPACE_OFFSET ==> #[trigger] tm.next_addr_ops(size, s)
                    == fresh_thread_ops(first_addr as int, size, s),
            final(ops)@ == old(ops)@.push(MmanOp::Mmap { addr: first_addr, size: TANK_SIZE }).push(
                MmanOp::Mmap { addr: (first_addr + LARGE_ADDR_SPACE_OFFSET) as u64, size: TANK_SIZE },
            ),
    {
        let small_alloc = SmallAllocator::new_in(first_addr, ops);
        let large_alloc = LargeAllocator::new_in(first_addr + LARGE_ADDR_SPACE_OFFSET, ops);
        let tm = ThreadMeta { small_alloc, large_alloc, first: Ghost(first_addr) };
        proof {
            assert((first_addr + LARGE_ADDR_SPACE_OFFSET) % 4096 == 0) by (nonlinear_arith)
                requires
                    first_addr % 0x100_0000_0000 == 0,
            ;
            assert(first_addr % 16 == 0) by (nonlinear_arith)
                requires
                    first_addr % 0x100_0000_0000 == 0,
            ;
            lemma_aligned_is_own_align_up((first_addr + LARGE_ADDR_SPACE_OFFSET) as int);
            assert forall|size: u64| #[trigger]
                tm.next_addr_spec(size) == first_addr + if size < POOL_SIZE {
                    bin_index_spec(size as int) * POOL_SIZE
                } else {
                    LARGE_ADDR_SPACE_OFFSET as int
                } by {
                if size < POOL_SIZE {
                    let i = bin_index_spec(size as int);
                    let p = tm.spec_small().spec_bin_pool(i);
                    assert(p.spec_start() == first_addr + i * POOL_SIZE);
                    assert(p.spec_start() % 16 == 0) by (nonlinear_arith)
                        requires
                            p.spec_start() == first_addr + i * 8192,
                            first_addr % 16 == 0,
                    ;
                    lemma_aligned_is_own_align_up(p.spec_start() as int);
                }
            }
            assert forall|size: u64, s: Seq<MmanOp>|
                size <= LARGE_ADDR_SPACE_OFFSET implies #[trigger] tm.next_addr_ops(size, s)
                == fresh_thread_ops(first_addr as int, size, s) by {
                if size < POOL_SIZE {
                    let i = bin_index_spec(size as int);
                    let p = tm.spec_small().spec_bin_pool(i);
                    assert(p.spec_start() == first_addr + i * POOL_SIZE);
                    assert(p.spec_start() % 16 == 0) by (nonlinear_arith)
                        requires
                            p.spec_start() == first_addr + i * 8192,
                            first_addr % 16 == 0,
                    ;
                    lemma_aligned_is_own_align_up(p.spec_start() as int);
                }
            }
            assert forall|size: u64| size <= LARGE_ADDR_SPACE_OFFSET implies #[trigger] tm.can_alloc(
                size,
            ) by {
                if size < POOL_SIZE {
                    let i = bin_index_spec(size as int);
                    let p = tm.spec_small().spec_bin_pool(i);
                    assert(p.spec_start() == first_addr + i * POOL_SIZE);
                    assert(p.spec_start() % 16 == 0) by (nonlinear_arith)
                        requires
                            p.spec_start() == first_addr + i * 8192,
                            first_addr % 16 == 0,
                    ;
                    lemma_aligned_is_own_align_up(p.spec_start() as int);
                }
            }
        }
        tm
    }

    /// Serves a request of `size` bytes: below a pool from the small
    /// allocator, else from the large one. The region handed out overlaps no
    /// other live allocation of the thread.
    pub fn next_addr(&mut self, size: u64, ops: &mut Vec<MmanOp>) -> (addr: u64)
        requires
            old(self).wf(),
            old(self).can_alloc(size),
        ensures
            final(self).wf(),
            final(self).spec_first() == old(self).spec_first(),
            addr == old(self).next_addr_spec(size),
            final(ops)@ == old(self).next_addr_ops(size, old(ops)@),
            forall|k: int|
                old(ops)@.len() <= k < final(ops)@.len() ==> {
                    &&& unmaps_within(
                        #[trigger] final(ops)@[k],
                        final(self).spec_first() as int,
                        final(self).spec_first() + ADDR_SPACE_MAX_SIZE,
                    )
                    &&& forall|b: u64|
                        #[trigger] final(self).is_live(b) ==> spares(
                            final(ops)@[k],
                            b as int,
                            final(self).live_size(b) as int,
                        )
                },
            old(self).next_addr_post(*final(self), size, addr),
            old(self).block_unused(addr as int, size as int),
            forall|a: int, s: int| #[trigger]
                final(self).block_unused(a, s) ==> old(self).block_unused(a, s),
            size > 0 ==> forall|s: int| s > 0 ==> !#[trigger] final(self).block_unused(addr as int, s),
            forall|k: int, a: int, s: int|
                old(ops)@.len() <= k < final(ops)@.len() && #[trigger] final(self).block_unused(a, s)
                    ==> spares(#[trigger] final(ops)@[k], a, s),
            addr + size <= final(self).mapped_end(addr as int),
            final(self).is_live(addr),
            final(self).live_size(addr) == size,
            addr % STANDARD_ALIGN == 0,
            is_small_addr_spec(addr as int) == (size < POOL_SIZE),
            forall|b: u64|
                #[trigger] final(self).is_live(b) == (old(self).is_live(b) || b == addr),
            forall|b: u64|
                #[trigger] old(self).is_live(b) && b != addr ==> final(self).live_size(b) == old(
                    self,
                ).live_size(b),
            forall|b: u64|
                #[trigger] old(self).is_live(b) && b != addr ==> regions_disjoint(
                    b as int,
                    old(self).live_size(b) as int,
                    addr as int,
                    size as int,
                ),
    {
        let ghost pre = *self;
        if size < POOL_SIZE {
            let addr = self.small_alloc.next_addr(size, ops);
            proof {
                Self::lemma_next_addr_unused(pre, *self, size, addr);
                assert forall|k: int, a: int, s: int|
                    old(ops)@.len() <= k < ops@.len() && #[trigger] self.block_unused(a, s) implies spares(
                    #[trigger] ops@[k],
                    a,
                    s,
                ) by {
                    self.lemma_dead_pool_spares(ops@[k], a, s);
                }
                self.lemma_halves(addr);
                assert forall|b: u64| #[trigger]
                    pre.is_live(b) && b != addr implies regions_disjoint(
                    b as int,
                    pre.live_size(b) as int,
                    addr as int,
                    size as int,
                ) by {
                    pre.lemma_halves(b);
                }
            }
            addr
        } else {
            let addr = self.large_alloc.next_addr(size, ops);
            proof {
                Self::lemma_next_addr_unused(pre, *self, size, addr);
                self.lemma_halves(addr);
                assert forall|b: u64| #[trigger]
                    pre.is_live(b) && b != addr implies regions_disjoint(
                    b as int,
                    pre.live_size(b) as int,
                    addr as int,
                    size as int,
                ) by {
                    pre.lemma_halves(b);
                }
            }
            addr
        }
    }

    /// Frees the allocation at `addr` in the allocator whose half of the
    /// thread's space holds it.
    pub fn free(&mut self, addr: u64, ops: &mut Vec<MmanOp>)
        requires
            old(self).wf(),
            !is_small_addr_spec(addr as int) ==> old(self).spec_large().spec_live().contains_key(
                addr,
            ),
        ensures
            final(self).wf(),
            final(self).spec_first() == old(self).spec_first(),
            final(ops)@ == old(self).free_ops(addr, old(ops)@),
            forall|k: int|
                old(ops)@.len() <= k < final(ops)@.len() ==> {
                    &&& unmaps_within(
                        #[trigger] final(ops)@[k],
                        final(self).spec_first() as int,
                        final(self).spec_first() + ADDR_SPACE_MAX_SIZE,
                    )
                    &&& forall|b: u64|
                        #[trigger] final(self).is_live(b) ==> spares(
                            final(ops)@[k],
                            b as int,
                            final(self).live_size(b) as int,
                        )
                },
            old(self).free_post(*final(self), addr),
            forall|a: int, s: int| #[trigger]
                final(self).block_unused(a, s) == old(self).block_unused(a, s),
            forall|k: int, a: int, s: int|
                old(ops)@.len() <= k < final(ops)@.len() && #[trigger] old(self).block_unused(a, s)
                    ==> spares(#[trigger] final(ops)@[k], a, s),
            forall|b: u64| #[trigger] final(self).is_live(b) == (old(self).is_live(b) && b != addr),
            forall|size: u64| #[trigger] old(self).can_alloc(size) ==> final(self).can_alloc(size),
            forall|size: u64| #[trigger]
                final(self).next_addr_spec(size) == old(self).next_addr_spec(size),
            forall|b: u64| #[trigger]
                final(self).is_live(b) ==> final(self).live_size(b) == old(self).live_size(b),
    {
        let ghost pre = *self;
        proof {
            pre.lemma_halves(addr);
        }
        if is_small_addr(addr) {
            self.small_alloc.free(addr, ops);
        } else {
            self.large_alloc.free(addr, ops);
        }
        proof {
            assert forall|b: u64| #[trigger] self.is_live(b) == (pre.is_live(b) && b != addr) by {
                pre.lemma_halves(b);
            }
            Self::lemma_free_unused(pre, *self, addr, old(ops)@, ops@);
        }
    }

    /// The requested size of the live allocation at `addr`, or 0 when there is
    /// none.
    pub fn usable_size(&self, addr: u64) -> (r: u64)
        requires
            self.wf(),
        ensures
            r == if self.is_live(addr) {
                self.live_size(addr)
            } else {
                0
            },
    {
        proof {
            self.lemma_halves(addr);
        }
        if is_small_addr(addr) {
            self.small_alloc.usable_size(addr)
        } else {
            self.large_alloc.usable_size(addr)
        }
    }
}

} // verus!
