pub mod bin;

use vstd::prelude::*;

use crate::metadata::thread_meta::addr_meta::AddrMeta;
use crate::metadata::thread_meta::small_alloc::bin::Bin;
use crate::metadata::thread_meta::small_allocator::pool::Pool;
use crate::metadata::thread_meta::small_allocator::pool_allocator::PoolAllocator;
use crate::maps::{u64_map_contents, U64Map};
use crate::metadata::thread_meta::small_allocator::{
    bin_index_spec, lemma_aligned_is_own_align_up, lemma_bin_index, lemma_pool_starts_apart,
    lemma_pool_step, nth_pool, release_ref, size2bin_index,
};
use crate::utils::consts::{BINS_NO, POOL_SIZE, STANDARD_ALIGN, TANK_SIZE};
use crate::utils::mman_ops::MmanOp;
use crate::utils::{align_up_spec, lemma_align_consts_pow2, regions_disjoint};

verus! {

/// A simpler small allocator: ten size classes, each carving from a pool of
/// its own, that hands out with each address the metadata of the allocation.
/// A pool is held by the bin that carves from it and by each piece of
/// metadata handed out for an allocation carved from it; `pool_refs` counts
/// the holders, and the pool is given back when the last of them lets go
/// (the bin when it takes a fresh pool, the metadata through `release`).
pub struct SmallAlloc {
    pool_alloc: PoolAllocator,
    bins: Vec<Bin>,
    pool_refs: U64Map,
    issued: Ghost<Map<u64, nat>>,
}

impl SmallAlloc {
    pub closed spec fn spec_bin(&self, i: int) -> Bin {
        self.bins@[i]
    }

    pub closed spec fn spec_pool_alloc(&self) -> PoolAllocator {
        self.pool_alloc
    }

    pub closed spec fn has_all_bins(&self) -> bool {
        self.bins@.len() == BINS_NO
    }

    /// The holders of each pool in use, by the pool's start.
    pub closed spec fn spec_refs(&self) -> Map<u64, u64> {
        u64_map_contents(self.pool_refs)
    }

    /// How many pieces of metadata handed out for the pool at `p` are still
    /// held.
    pub closed spec fn spec_issued(&self, p: u64) -> nat {
        if self.issued@.contains_key(p) {
            self.issued@[p]
        } else {
            0
        }
    }

    /// Some bin carves from the pool at `p`.
    pub open spec fn bin_holds(&self, p: u64) -> bool {
        exists|i: int| 0 <= i < BINS_NO && #[trigger] self.spec_bin(i).pool.spec_start() == p
    }

    /// Start of the next fresh pool.
    pub open spec fn frontier(&self) -> u64 {
        self.spec_pool_alloc().spec_next_pool()
    }

    pub open spec fn wf(&self) -> bool {
        &&& self.has_all_bins()
        &&& self.spec_pool_alloc().wf()
        &&& self.frontier() % STANDARD_ALIGN == 0
        &&& forall|i: int|
            0 <= i < BINS_NO ==> {
                let p = (#[trigger] self.spec_bin(i)).pool;
                &&& p.spec_start() % STANDARD_ALIGN == 0
                &&& p.spec_end() == p.spec_start() + POOL_SIZE
                &&& p.spec_start() <= p.spec_next()
                &&& p.spec_end() <= self.frontier()
                &&& self.spec_refs().contains_key(p.spec_start())
                &&& (self.frontier() - p.spec_start()) % (POOL_SIZE as int) == 0
            }
        &&& forall|i: int, j: int|
            0 <= i < BINS_NO && 0 <= j < BINS_NO && i != j ==> (#[trigger] self.spec_bin(
                i,
            )).pool.spec_start() != (#[trigger] self.spec_bin(j)).pool.spec_start()
        &&& forall|p: u64|
            #[trigger] self.spec_refs().contains_key(p) ==> {
                &&& self.spec_refs()[p] >= 1
                &&& self.spec_refs()[p] == self.spec_issued(p) + (if self.bin_holds(p) {
                    1int
                } else {
                    0int
                })
                &&& p + POOL_SIZE <= self.frontier()
            }
        &&& forall|p: u64| #[trigger] self.spec_issued(p) > 0 ==> self.spec_refs().contains_key(p)
    }

    /// `[x, x + s)` lies in what has been carved already: below the frontier
    /// and, in each bin's pool, below the bump pointer or past the pool.
    pub open spec fn carved_apart(&self, x: int, s: int) -> bool {
        &&& x + s <= self.frontier()
        &&& forall|j: int|
            0 <= j < BINS_NO ==> x + s <= (#[trigger] self.spec_bin(j)).pool.spec_next() || x
                >= self.spec_bin(j).pool.spec_end()
    }

    /// How `next_addr(size)` changes the bins when it carves `addr`: the bin
    /// of `size` carves from its pool, or from a fresh pool at the frontier;
    /// the others stay.
    pub open spec fn carves(&self, post: SmallAlloc, size: u64, addr: u64) -> bool {
        let i = bin_index_spec(size as int);
        let p = self.spec_bin(i).pool;
        let q = post.spec_bin(i).pool;
        &&& self.wf()
        &&& post.wf()
        &&& forall|j: int|
            0 <= j < BINS_NO && j != i ==> #[trigger] post.spec_bin(j) == self.spec_bin(j)
        &&& q.spec_next() == addr + size
        &&& addr + size <= q.spec_end()
        &&& {
            ||| {
                &&& p.spec_next() <= addr
                &&& q.spec_start() == p.spec_start()
                &&& q.spec_end() == p.spec_end()
                &&& post.frontier() == self.frontier()
            }
            ||| {
                &&& addr == self.frontier()
                &&& q.spec_start() == addr
                &&& post.frontier() == self.frontier() + POOL_SIZE
            }
        }
    }

    /// Two bin pools lie apart.
    proof fn lemma_bins_apart(&self, i: int, j: int)
        requires
            self.wf(),
            0 <= i < BINS_NO,
            0 <= j < BINS_NO,
            i != j,
        ensures
            self.spec_bin(i).pool.spec_end() <= self.spec_bin(j).pool.spec_start()
                || self.spec_bin(j).pool.spec_end() <= self.spec_bin(i).pool.spec_start(),
    {
        lemma_pool_starts_apart(
            self.frontier() as int,
            self.spec_bin(i).pool.spec_start() as int,
            self.spec_bin(j).pool.spec_start() as int,
        );
    }

    /// A carve lands apart from everything carved before, what was carved
    /// stays carved, and the new block is carved after it.
    pub proof fn lemma_carve_apart(pre: SmallAlloc, post: SmallAlloc, size: u64, addr: u64, x: int, s: int)
        requires
            pre.carves(post, size, addr),
            0 <= s,
            pre.carved_apart(x, s),
        ensures
            regions_disjoint(x, s, addr as int, size as int),
            post.carved_apart(x, s),
            post.carved_apart(addr as int, size as int),
    {
        let i = bin_index_spec(size as int);
        lemma_bin_index(size as int, size as int);
        let p = pre.spec_bin(i).pool;
        let q = post.spec_bin(i).pool;
        assert(x + s <= p.spec_next() || x >= p.spec_end());
        assert forall|j: int| 0 <= j < BINS_NO implies addr + size <= (#[trigger] post.spec_bin(
            j,
        )).pool.spec_next() || addr >= post.spec_bin(j).pool.spec_end() by {
            if j != i {
                post.lemma_bins_apart(i, j);
            }
        }
        assert forall|j: int| 0 <= j < BINS_NO implies x + s <= (#[trigger] post.spec_bin(
            j,
        )).pool.spec_next() || x >= post.spec_bin(j).pool.spec_end() by {
            if j != i {
                assert(post.spec_bin(j) == pre.spec_bin(j));
            }
        }
    }

    /// Every two blocks that a run of `next_addr` calls hands out lie apart,
    /// whatever pieces of metadata are let go of between them: step `i`
    /// carves `sizes[i]` bytes at `addrs[i]` when `carved[i]`, and lets go of
    /// metadata otherwise.
    pub proof fn lemma_blocks_apart(
        states: Seq<SmallAlloc>,
        carved: Seq<bool>,
        sizes: Seq<u64>,
        addrs: Seq<u64>,
    )
        requires
            states.len() == carved.len() + 1,
            sizes.len() == carved.len(),
            addrs.len() == carved.len(),
            forall|i: int|
                0 <= i < carved.len() ==> if #[trigger] carved[i] {
                    states[i].carves(states[i + 1], sizes[i], addrs[i])
                } else {
                    &&& states[i + 1].wf()
                    &&& states[i + 1].spec_pool_alloc() == states[i].spec_pool_alloc()
                    &&& forall|j: int|
                        0 <= j < BINS_NO ==> #[trigger] states[i + 1].spec_bin(j) == states[i].spec_bin(j)
                },
        ensures
            forall|i: int, k: int|
                0 <= i < k < carved.len() && carved[i] && carved[k] ==> regions_disjoint(
                    #[trigger] addrs[i] as int,
                    sizes[i] as int,
                    #[trigger] addrs[k] as int,
                    sizes[k] as int,
                ),
            forall|i: int|
                0 <= i < carved.len() && #[trigger] carved[i] ==> states.last().carved_apart(
                    addrs[i] as int,
                    sizes[i] as int,
                ),
        decreases carved.len(),
    {
        if carved.len() > 0 {
            let n = carved.len() - 1;
            Self::lemma_blocks_apart(
                states.drop_last(),
                carved.drop_last(),
                sizes.drop_last(),
                addrs.drop_last(),
            );
            let pre = states[n];
            let post = states[n + 1];
            assert(states.drop_last().last() == pre);
            assert(carved[n] == carved[n]);
            assert forall|i: int| 0 <= i < n && #[trigger] carved[i] implies post.carved_apart(
                addrs[i] as int,
                sizes[i] as int,
            ) && (carved[n] ==> regions_disjoint(
                addrs[i] as int,
                sizes[i] as int,
                addrs[n] as int,
                sizes[n] as int,
            )) by {
                assert(carved.drop_last()[i] == carved[i]);
                assert(pre.carved_apart(addrs[i] as int, sizes[i] as int));
                if carved[n] {
                    Self::lemma_carve_apart(pre, post, sizes[n], addrs[n], addrs[i] as int, sizes[i] as int);
                } else {
                    assert forall|j: int| 0 <= j < BINS_NO implies addrs[i] + sizes[i] <= (
                    #[trigger] post.spec_bin(j)).pool.spec_next() || addrs[i] >= post.spec_bin(
                        j,
                    ).pool.spec_end() by {
                        assert(post.spec_bin(j) == pre.spec_bin(j));
                    }
                }
            }
            if carved[n] {
                Self::lemma_carve_apart(pre, post, sizes[n], addrs[n], 0, 0);
            }
            assert forall|i: int, k: int|
                0 <= i < k < carved.len() && carved[i] && carved[k] implies regions_disjoint(
                #[trigger] addrs[i] as int,
                sizes[i] as int,
                #[trigger] addrs[k] as int,
                sizes[k] as int,
            ) by {
                if k < n {
                    assert(carved.drop_last()[i] == carved[i]);
                    assert(carved.drop_last()[k] == carved[k]);
                    assert(addrs.drop_last()[i] == addrs[i]);
                    assert(addrs.drop_last()[k] == addrs[k]);
                    assert(sizes.drop_last()[i] == sizes[i]);
                    assert(sizes.drop_last()[k] == sizes[k]);
                } else {
                    assert(carved[i]);
                }
            }
        }
    }

    /// Whether `next_addr(size)` can run without an arithmetic overflow.
    pub open spec fn can_alloc(&self, size: u64) -> bool {
        let p = self.spec_bin(bin_index_spec(size as int)).pool;
        let a = align_up_spec(p.spec_next() as int, STANDARD_ALIGN as int);
        &&& p.spec_next() + STANDARD_ALIGN <= u64::MAX
        &&& a + size <= u64::MAX
        &&& a + size > p.spec_end() ==> self.spec_pool_alloc().can_take_pool()
        &&& a + size <= p.spec_end() ==> self.spec_refs()[p.spec_start()] < u64::MAX
    }

    /// Starts at `first_addr`, mapping the first tank there, and gives bin
    /// `i`, meant for requests of up to `16 << i` bytes, the `i`-th pool.
    pub fn new_in(first_addr: u64, ops: &mut Vec<MmanOp>) -> (sa: SmallAlloc)
        requires
            first_addr % STANDARD_ALIGN == 0,
            first_addr + TANK_SIZE <= u64::MAX,
        ensures
            sa.wf(),
            sa.frontier() == first_addr + BINS_NO * POOL_SIZE,
            forall|i: int|
                0 <= i < BINS_NO ==> {
                    &&& (#[trigger] sa.spec_bin(i)).pool.spec_start() == first_addr + i * POOL_SIZE
                    &&& sa.spec_bin(i).pool.spec_next() == sa.spec_bin(i).pool.spec_start()
                    &&& sa.spec_bin(i).max_size == 16 * vstd::arithmetic::power2::pow2(
                        i as nat,
                    )
                },
            forall|i: int|
                0 <= i < BINS_NO ==> sa.spec_refs()[#[trigger] sa.spec_bin(i).pool.spec_start()] == 1,
            forall|p: u64| sa.spec_issued(p) == 0,
            final(ops)@ == old(ops)@.push(MmanOp::Mmap { addr: first_addr, size: TANK_SIZE }),
    {
        let mut pool_alloc = PoolAllocator::new(first_addr, ops);
        let ghost ops0 = ops@;
        let mut size: u64 = STANDARD_ALIGN / 2;
        let mut bins: Vec<Bin> = Vec::new();
        let mut pool_refs = U64Map::with_capacity(BINS_NO);
        let mut i: u64 = 0;
        proof {
            vstd::arithmetic::power2::lemma2_to64();
        }
        while i < BINS_NO
            invariant
                i <= BINS_NO,
                first_addr % STANDARD_ALIGN == 0,
                first_addr + TANK_SIZE <= u64::MAX,
                pool_alloc.wf(),
                pool_alloc.spec_next_pool() == first_addr + i * POOL_SIZE,
                pool_alloc.spec_last_mapped() == first_addr + TANK_SIZE,
                ops@ == ops0,
                bins@.len() == i,
                size == 8 * vstd::arithmetic::power2::pow2(i as nat),
                vstd::arithmetic::power2::pow2(10) == 1024,
                forall|j: int|
                    0 <= j < i ==> {
                        let b = #[trigger] bins@[j];
                        &&& b.pool.spec_start() == first_addr + j * POOL_SIZE
                        &&& b.pool.spec_end() == b.pool.spec_start() + POOL_SIZE
                        &&& b.pool.spec_next() == b.pool.spec_start()
                        &&& b.max_size == 16 * vstd::arithmetic::power2::pow2(j as nat)
                    },
                forall|p: u64|
                    #[trigger] u64_map_contents(pool_refs).contains_key(p) <==> (exists|j: int|
                        0 <= j < i && p == #[trigger] nth_pool(first_addr, j)),
                forall|p: u64|
                    #[trigger] u64_map_contents(pool_refs).contains_key(p) ==> u64_map_contents(
                        pool_refs,
                    )[p] == 1,
            decreases BINS_NO - i,
        {
            assert(pool_alloc.spec_next_pool() + POOL_SIZE <= first_addr + TANK_SIZE) by (nonlinear_arith)
                requires
                    pool_alloc.spec_next_pool() == first_addr + i * POOL_SIZE,
                    i < BINS_NO,
            ;
            proof {
                vstd::arithmetic::power2::lemma_pow2_unfold((i + 1) as nat);
                vstd::arithmetic::power2::lemma_pow2_strictly_increases(i as nat, 10);
            }
            assert(size << 1u64 == size * 2) by (bit_vector)
                requires
                    size < 0x1_0000_0000,
            ;
            size = size << 1;
            let pool = pool_alloc.next_pool(ops);
            let start = pool.start_addr();
            pool_refs.insert(start, 1);
            bins.push(Bin::new(size, pool));
            proof {
                assert forall|p: u64|
                    #[trigger] u64_map_contents(pool_refs).contains_key(p) <==> (exists|j: int|
                        0 <= j < i + 1 && p == #[trigger] nth_pool(first_addr, j)) by {
                    if p == start {
                        assert(p == nth_pool(first_addr, i as int));
                    }
                }
            }
            assert(first_addr + (i + 1) * POOL_SIZE == first_addr + i * POOL_SIZE + POOL_SIZE)
                by (nonlinear_arith);
            i = i + 1;
        }
        let sa = SmallAlloc { pool_alloc, bins, pool_refs, issued: Ghost(Map::empty()) };
        proof {
            assert forall|j: int| 0 <= j < BINS_NO implies #[trigger] sa.spec_bin(j).pool.spec_start()
                == nth_pool(first_addr, j) && sa.spec_refs().contains_key(nth_pool(first_addr, j) as u64) by {}
            assert forall|j: int, k: int|
                0 <= j < BINS_NO && 0 <= k < BINS_NO && j != k implies (#[trigger] sa.spec_bin(
                j,
            )).pool.spec_start() != (#[trigger] sa.spec_bin(k)).pool.spec_start() by {
                assert(first_addr + j * 8192 != first_addr + k * 8192) by (nonlinear_arith)
                    requires
                        j != k,
                ;
            }
            assert forall|p: u64| #[trigger] sa.spec_refs().contains_key(p) implies {
                &&& sa.spec_refs()[p] >= 1
                &&& sa.spec_refs()[p] == sa.spec_issued(p) + (if sa.bin_holds(p) {
                    1int
                } else {
                    0int
                })
                &&& p + POOL_SIZE <= sa.frontier()
            } by {
                let j = choose|j: int| 0 <= j < BINS_NO && p == #[trigger] nth_pool(first_addr, j);
                assert(sa.spec_bin(j).pool.spec_start() == p);
                assert(p + 8192 <= first_addr + 10 * 8192) by (nonlinear_arith)
                    requires
                        p == first_addr + j * 8192,
                        j < 10,
                ;
            }
            assert forall|j: int| 0 <= j < BINS_NO implies {
                let p = (#[trigger] sa.spec_bin(j)).pool;
                &&& p.spec_start() % STANDARD_ALIGN == 0
                &&& p.spec_end() == p.spec_start() + POOL_SIZE
                &&& p.spec_start() <= p.spec_next()
                &&& p.spec_end() <= sa.frontier()
            } by {
                let p = sa.spec_bin(j).pool;
                assert(p.spec_start() % 16 == 0) by (nonlinear_arith)
                    requires
                        p.spec_start() == first_addr + j * 8192,
                        first_addr % 16 == 0,
                ;
                assert(p.spec_end() <= sa.frontier()) by (nonlinear_arith)
                    requires
                        p.spec_end() == first_addr + j * 8192 + 8192,
                        sa.frontier() == first_addr + 10 * 8192,
                        j < 10,
                ;
            }
            assert((first_addr + BINS_NO * POOL_SIZE) % 16 == 0) by (nonlinear_arith)
                requires
                    first_addr % 16 == 0,
            ;
        }
        sa
    }

    /// Drops one holder of the pool at `p`; the pool is given back when that
    /// was its last holder.
    fn release_pool(&mut self, p: u64, ops: &mut Vec<MmanOp>)
        requires
            old(self).spec_refs().contains_key(p),
            old(self).spec_refs()[p] >= 1,
        ensures
            final(self).bins == old(self).bins,
            final(self).pool_alloc == old(self).pool_alloc,
            final(self).issued == old(self).issued,
            final(self).spec_refs() == release_ref(old(self).spec_refs(), p),
            final(ops)@ == if old(self).spec_refs()[p] == 1 {
                old(ops)@.push(MmanOp::Munmap { addr: p, size: POOL_SIZE })
            } else {
                old(ops)@
            },
    {
        let count = self.pool_refs.get(p).unwrap();
        if count == 1 {
            self.pool_refs.remove(p);
            ops.push(MmanOp::Munmap { addr: p, size: POOL_SIZE });
        } else {
            self.pool_refs.insert(p, count - 1);
        }
    }

    /// Carves `size` bytes for a request below a pool from the bin of `size`,
    /// taking a fresh pool for the bin when they do not fit in its current
    /// one (the bin lets go of the old pool, which is given back when nothing
    /// else holds it), and returns the address with the allocation's metadata,
    /// which holds the pool it names.
    pub fn next_addr(&mut self, size: u64, ops: &mut Vec<MmanOp>) -> (r: (u64, AddrMeta))
        requires
            old(self).wf(),
            size <= POOL_SIZE,
            old(self).can_alloc(size),
        ensures
            final(self).wf(),
            old(self).carves(*final(self), size, r.0),
            ({
                let i = bin_index_spec(size as int);
                let p = old(self).spec_bin(i).pool;
                let a = align_up_spec(p.spec_next() as int, STANDARD_ALIGN as int);
                let q = final(self).spec_bin(i).pool;
                &&& forall|j: int|
                    0 <= j < BINS_NO && j != i ==> #[trigger] final(self).spec_bin(j) == old(
                        self,
                    ).spec_bin(j)
                &&& final(self).spec_bin(i).max_size == old(self).spec_bin(i).max_size
                &&& r.1 == (AddrMeta::SmallMeta { size, pool: q.spec_start() })
                &&& q.spec_next() == r.0 + size
                &&& q.spec_end() == q.spec_start() + POOL_SIZE
                &&& r.0 % STANDARD_ALIGN == 0
                &&& forall|x: u64| #[trigger]
                    final(self).spec_issued(x) == old(self).spec_issued(x) + (if x == q.spec_start() {
                        1int
                    } else {
                        0int
                    })
                &&& if a + size <= p.spec_end() {
                    &&& r.0 == a
                    &&& q.spec_start() == p.spec_start()
                    &&& final(self).spec_pool_alloc() == old(self).spec_pool_alloc()
                    &&& final(self).spec_refs() == old(self).spec_refs().insert(
                        p.spec_start(),
                        (old(self).spec_refs()[p.spec_start()] + 1) as u64,
                    )
                    &&& final(ops)@ == old(ops)@
                } else {
                    let pa = old(self).spec_pool_alloc();
                    let ops1 = if pa.spec_next_pool() + POOL_SIZE > pa.spec_last_mapped() {
                        old(ops)@.push(MmanOp::Mmap { addr: pa.spec_last_mapped(), size: TANK_SIZE })
                    } else {
                        old(ops)@
                    };
                    &&& r.0 == old(self).frontier()
                    &&& q.spec_start() == r.0
                    &&& final(self).frontier() == old(self).frontier() + POOL_SIZE
                    &&& final(self).spec_refs() == release_ref(old(self).spec_refs(), p.spec_start()).insert(
                        old(self).frontier(),
                        2,
                    )
                    &&& final(ops)@ == if old(self).spec_refs()[p.spec_start()] == 1 {
                        ops1.push(MmanOp::Munmap { addr: p.spec_start(), size: POOL_SIZE })
                    } else {
                        ops1
                    }
                }
            }),
    {
        proof {
            lemma_align_consts_pow2();
        }
        let ghost pre = *self;
        let bin_index = size2bin_index(size);
        let r = self.bins[bin_index].pool.next_addr(size);
        let ghost bumped = *self;
        let addr = match r {
            Some(a) => a,
            None => {
                let pool = self.pool_alloc.next_pool(ops);
                let start = pool.start_addr();
                let old_start = self.bins[bin_index].pool.start_addr();
                proof {
                    lemma_aligned_is_own_align_up(pool.spec_start() as int);
                    assert(pre.spec_refs().contains_key(old_start));
                }
                self.bins[bin_index].pool = pool;
                self.pool_refs.insert(start, 1);
                self.release_pool(old_start, ops);
                self.bins[bin_index].pool.next_addr(size).unwrap()
            },
        };
        let ghost carved = *self;
        let pool = self.bins[bin_index].pool.start_addr();
        proof {
            assert(self.spec_refs().contains_key(pool));
        }
        let count = self.pool_refs.get(pool).unwrap();
        self.pool_refs.insert(pool, count + 1);
        proof {
            let c = if self.issued@.contains_key(pool) { self.issued@[pool] } else { 0 };
            self.issued@ = self.issued@.insert(pool, c + 1);
        }
        let meta = AddrMeta::new_small(size, pool);
        proof {
            let i = bin_index as int;
            let p0 = pre.spec_bin(i).pool.spec_start();
            assert forall|j: int| 0 <= j < BINS_NO && j != i implies #[trigger] self.spec_bin(j)
                == pre.spec_bin(j) by {}
            // which pools the bins hold
            assert forall|x: u64| #[trigger] self.bin_holds(x) == (x == pool || (x != p0
                && pre.bin_holds(x))) by {
                if self.bin_holds(x) {
                    let j = choose|j: int|
                        0 <= j < BINS_NO && #[trigger] self.spec_bin(j).pool.spec_start() == x;
                    if j != i {
                        assert(pre.spec_bin(j).pool.spec_start() == x);
                    }
                }
                if x == pool {
                    assert(self.spec_bin(i).pool.spec_start() == x);
                }
                if x != p0 && pre.bin_holds(x) {
                    let j = choose|j: int|
                        0 <= j < BINS_NO && #[trigger] pre.spec_bin(j).pool.spec_start() == x;
                    assert(j != i);
                    assert(self.spec_bin(j).pool.spec_start() == x);
                }
            }
            assert(pre.bin_holds(p0)) by {
                assert(pre.spec_bin(i).pool.spec_start() == p0);
            }
            assert forall|x: u64| #[trigger] self.spec_refs().contains_key(x) implies {
                &&& self.spec_refs()[x] >= 1
                &&& self.spec_refs()[x] == self.spec_issued(x) + (if self.bin_holds(x) {
                    1int
                } else {
                    0int
                })
                &&& x + POOL_SIZE <= self.frontier()
            } by {
                assert(pre.spec_issued(pool) == 0 || pool == p0);
                if x != pool {
                    assert(self.spec_refs()[x] == carved.spec_refs()[x]);
                    assert(pre.spec_refs().contains_key(x));
                    if x == p0 {
                        assert(!self.bin_holds(x));
                        assert(carved.spec_refs()[x] == pre.spec_refs()[x] - 1);
                    } else {
                        assert(carved.spec_refs()[x] == pre.spec_refs()[x]);
                        assert(self.bin_holds(x) == pre.bin_holds(x));
                    }
                } else if pool == p0 {
                    assert(carved.spec_refs()[x] == pre.spec_refs()[x]);
                } else {
                    assert(carved.spec_refs()[x] == 1);
                    assert(pre.spec_issued(x) == 0);
                }
            }
            assert forall|x: u64| #[trigger] self.spec_issued(x) > 0 implies self.spec_refs().contains_key(x) by {
                if x != pool {
                    assert(pre.spec_issued(x) > 0);
                }
            }
            assert forall|j: int| 0 <= j < BINS_NO implies {
                let p = (#[trigger] self.spec_bin(j)).pool;
                &&& p.spec_start() % STANDARD_ALIGN == 0
                &&& p.spec_end() == p.spec_start() + POOL_SIZE
                &&& p.spec_start() <= p.spec_next()
                &&& p.spec_end() <= self.frontier()
                &&& self.spec_refs().contains_key(p.spec_start())
                &&& (self.frontier() - p.spec_start()) % (POOL_SIZE as int) == 0
            } by {
                if j != i {
                    assert(self.spec_bin(j) == pre.spec_bin(j));
                    assert(self.bin_holds(pre.spec_bin(j).pool.spec_start()));
                    if self.frontier() != pre.frontier() {
                        lemma_pool_step(pre.frontier() as int, pre.spec_bin(j).pool.spec_start() as int);
                    }
                }
            }
            assert forall|j: int, k: int|
                0 <= j < BINS_NO && 0 <= k < BINS_NO && j != k implies (#[trigger] self.spec_bin(
                j,
            )).pool.spec_start() != (#[trigger] self.spec_bin(k)).pool.spec_start() by {
                if j != i {
                    assert(self.spec_bin(j) == pre.spec_bin(j));
                }
                if k != i {
                    assert(self.spec_bin(k) == pre.spec_bin(k));
                }
            }
        }
        (addr, meta)
    }

    /// Lets go of the metadata of an allocation: a small one stops holding
    /// its pool, which is given back when that was its last holder; a large
    /// one holds nothing here.
    pub fn release(&mut self, meta: AddrMeta, ops: &mut Vec<MmanOp>)
        requires
            old(self).wf(),
            meta matches AddrMeta::SmallMeta { pool, .. } ==> old(self).spec_issued(pool) > 0,
        ensures
            final(self).wf(),
            forall|j: int| 0 <= j < BINS_NO ==> #[trigger] final(self).spec_bin(j) == old(self).spec_bin(j),
            final(self).spec_pool_alloc() == old(self).spec_pool_alloc(),
            match meta {
                AddrMeta::SmallMeta { pool, .. } => {
                    &&& final(self).spec_refs() == release_ref(old(self).spec_refs(), pool)
                    &&& forall|x: u64| #[trigger]
                        final(self).spec_issued(x) == old(self).spec_issued(x) - (if x == pool {
                            1int
                        } else {
                            0int
                        })
                    &&& final(ops)@ == if old(self).spec_refs()[pool] == 1 {
                        old(ops)@.push(MmanOp::Munmap { addr: pool, size: POOL_SIZE })
                    } else {
                        old(ops)@
                    }
                },
                AddrMeta::LargeMeta { .. } => {
                    &&& final(self).spec_refs() == old(self).spec_refs()
                    &&& forall|x: u64| #[trigger] final(self).spec_issued(x) == old(self).spec_issued(x)
                    &&& final(ops)@ == old(ops)@
                },
            },
    {
        let ghost pre = *self;
        match meta {
            AddrMeta::SmallMeta { pool, .. } => {
                proof {
                    assert(pre.spec_refs().contains_key(pool));
                }
                self.release_pool(pool, ops);
                proof {
                    self.issued@ = self.issued@.insert(pool, (pre.spec_issued(pool) - 1) as nat);
                    assert(self.bins@ == pre.bins@);
                    assert forall|j: int| 0 <= j < BINS_NO implies #[trigger] self.spec_bin(j) == pre.spec_bin(j) by {}
                    assert forall|j: int| 0 <= j < BINS_NO implies {
                        let p = (#[trigger] self.spec_bin(j)).pool;
                        &&& p.spec_start() % STANDARD_ALIGN == 0
                        &&& p.spec_end() == p.spec_start() + POOL_SIZE
                        &&& p.spec_start() <= p.spec_next()
                        &&& p.spec_end() <= self.frontier()
                        &&& self.spec_refs().contains_key(p.spec_start())
                        &&& (self.frontier() - p.spec_start()) % (POOL_SIZE as int) == 0
                    } by {
                        assert(pre.bin_holds(pre.spec_bin(j).pool.spec_start()));
                    }
                    assert forall|x: u64| #[trigger] self.bin_holds(x) == pre.bin_holds(x) by {
                        if self.bin_holds(x) {
                            let j = choose|j: int|
                                0 <= j < BINS_NO && #[trigger] self.spec_bin(j).pool.spec_start() == x;
                            assert(pre.spec_bin(j).pool.spec_start() == x);
                        }
                        if pre.bin_holds(x) {
                            let j = choose|j: int|
                                0 <= j < BINS_NO && #[trigger] pre.spec_bin(j).pool.spec_start() == x;
                            assert(self.spec_bin(j).pool.spec_start() == x);
                        }
                    }
                    assert forall|x: u64| #[trigger] self.spec_refs().contains_key(x) implies {
                        &&& self.spec_refs()[x] >= 1
                        &&& self.spec_refs()[x] == self.spec_issued(x) + (if self.bin_holds(x) {
                            1int
                        } else {
                            0int
                        })
                        &&& x + POOL_SIZE <= self.frontier()
                    } by {
                        assert(pre.spec_refs().contains_key(x));
                    }
                    assert forall|x: u64| #[trigger] self.spec_issued(x) > 0 implies self.spec_refs().contains_key(x) by {
                        assert(pre.spec_issued(x) > 0);
                    }
                }
            },
            AddrMeta::LargeMeta { .. } => {},
        }
    }
}

} // verus!
