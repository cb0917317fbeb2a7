pub mod bin;
pub mod pool;
pub mod pool_allocator;
pub mod small_meta;

use vstd::prelude::*;

use crate::maps::{SmallMetaMap, U64Map, small_meta_map_contents, u64_map_contents};
use crate::metadata::thread_meta::small_allocator::bin::Bin;
use crate::metadata::thread_meta::small_allocator::pool::Pool;
use crate::metadata::thread_meta::small_allocator::pool_allocator::PoolAllocator;
use crate::metadata::thread_meta::small_allocator::small_meta::SmallMeta;
use crate::utils::consts::{BINS_NO, PAGE_SIZE, POOL_SIZE, RESV_ADDRS_NO, STANDARD_ALIGN, TANK_SIZE};
use crate::utils::mman_ops::MmanOp;
use crate::utils::{
    align_up, align_up_spec, lemma_align_consts_pow2, regions_disjoint, spares, unmaps_within,
};
use vstd::arithmetic::power2::{lemma2_to64, pow2};

verus! {

/// The size class of a request: bin 0 takes up to 16 bytes, bin `i` for
/// `1 <= i <= 7` takes sizes in `(2^(i+3), 2^(i+4)]`, bin 8 takes sizes in
/// `(2048, 4096)`, and bin 9 takes everything from 4096 bytes on.
pub open spec fn bin_index_spec(size: int) -> int {
    if size <= 16 {
        0
    } else if size <= 32 {
        1
    } else if size <= 64 {
        2
    } else if size <= 128 {
        3
    } else if size <= 256 {
        4
    } else if size <= 512 {
        5
    } else if size <= 1024 {
        6
    } else if size <= 2048 {
        7
    } else if size < 4096 {
        8
    } else {
        9
    }
}

/// Start of the `j`-th pool carved from `first`.
pub open spec fn nth_pool(first: u64, j: int) -> int {
    first + j * POOL_SIZE
}

/// Every request goes to one of the bins, a larger request never to a lower
/// bin, and a request of at most a pool goes to a bin meant for it: bin `i`
/// is meant for requests of up to `16 << i` bytes, and every bin but the
/// first serves only requests above half of that. Between 16 bytes and a
/// page, the bin is the one whose bound is the next power of two of the
/// request: `2^(i+3) < size <= 2^(i+4)`, so a power of two `2^k` goes to bin
/// `k - 4`.
pub proof fn lemma_bin_index(size: int, other: int)
    requires
        0 <= size,
    ensures
        0 <= bin_index_spec(size) < BINS_NO,
        size <= other ==> bin_index_spec(size) <= bin_index_spec(other),
        size <= POOL_SIZE ==> size <= 16 * pow2(bin_index_spec(size) as nat),
        bin_index_spec(size) > 0 ==> 8 * pow2(bin_index_spec(size) as nat) <= size,
        size <= STANDARD_ALIGN ==> bin_index_spec(size) == 0,
        size >= PAGE_SIZE ==> bin_index_spec(size) == BINS_NO - 1,
        STANDARD_ALIGN < size < PAGE_SIZE ==> 8 * pow2(bin_index_spec(size) as nat) < size <= 16
            * pow2(bin_index_spec(size) as nat),
{
    lemma2_to64();
}

/// Number of live allocations of `live` carved from the pool at `pool`.
pub open spec fn pool_live_count(live: Map<u64, SmallMeta>, pool: u64) -> nat {
    live.dom().filter(|a: u64| live[a].pool == pool).len()
}

/// The holder counts `refs` once one holder of the pool at `p` is dropped:
/// the pool leaves the table with its last holder.
pub open spec fn release_ref(refs: Map<u64, u64>, p: u64) -> Map<u64, u64> {
    if refs[p] == 1 {
        refs.remove(p)
    } else {
        refs.insert(p, (refs[p] - 1) as u64)
    }
}

proof fn lemma_count_replace(live: Map<u64, SmallMeta>, k: u64, v: SmallMeta, p: u64)
    requires
        live.dom().finite(),
    ensures
        live.insert(k, v).dom().finite(),
        pool_live_count(live.insert(k, v), p) == pool_live_count(live, p) + (if v.pool == p {
            1int
        } else {
            0int
        }) - (if live.contains_key(k) && live[k].pool == p {
            1int
        } else {
            0int
        }),
{
    let l2 = live.insert(k, v);
    let s = live.dom().filter(|a: u64| live[a].pool == p);
    let s2 = l2.dom().filter(|a: u64| l2[a].pool == p);
    live.dom().lemma_len_filter(|a: u64| live[a].pool == p);
    l2.dom().lemma_len_filter(|a: u64| l2[a].pool == p);
    let s0 = s.remove(k);
    if v.pool == p {
        assert(s2 =~= s0.insert(k));
    } else {
        assert(s2 =~= s0);
    }
}

proof fn lemma_count_remove(live: Map<u64, SmallMeta>, k: u64, p: u64)
    requires
        live.dom().finite(),
        live.contains_key(k),
    ensures
        live.remove(k).dom().finite(),
        pool_live_count(live.remove(k), p) == pool_live_count(live, p) - (if live[k].pool == p {
            1int
        } else {
            0int
        }),
{
    let l2 = live.remove(k);
    let s = live.dom().filter(|a: u64| live[a].pool == p);
    let s2 = l2.dom().filter(|a: u64| l2[a].pool == p);
    live.dom().lemma_len_filter(|a: u64| live[a].pool == p);
    assert(s2 =~= s.remove(k));
}

proof fn lemma_count_zero(live: Map<u64, SmallMeta>, p: u64, a: u64)
    requires
        live.dom().finite(),
        pool_live_count(live, p) == 0,
        live.contains_key(a),
    ensures
        live[a].pool != p,
{
    let s = live.dom().filter(|x: u64| live[x].pool == p);
    live.dom().lemma_len_filter(|x: u64| live[x].pool == p);
    if live[a].pool == p {
        assert(s.contains(a));
        vstd::set::axiom_set_contains_len(s, a);
    }
}

/// Two different pool starts a whole number of pools apart lie at least a
/// pool apart.
pub proof fn lemma_pool_starts_apart(front: int, p: int, q: int)
    by (nonlinear_arith)
    requires
        (front - p) % 8192 == 0,
        (front - q) % 8192 == 0,
        p != q,
    ensures
        p + 8192 <= q || q + 8192 <= p,
{
}

/// Moving the frontier one pool further keeps a whole number of pools
/// between it and every pool start.
pub proof fn lemma_pool_step(front: int, p: int)
    by (nonlinear_arith)
    requires
        (front - p) % 8192 == 0,
    ensures
        (front + 8192 - p) % 8192 == 0,
{
}

pub proof fn lemma_aligned_is_own_align_up(x: int)
    by (nonlinear_arith)
    requires
        x >= 0,
        x % 16 == 0,
    ensures
        ((x + 16 - 1) / 16) * 16 == x,
{
}

/// The bin that serves `size`: the exponent of the next power of two of
/// `size`, less 4, within `0..BINS_NO`.
pub(crate) fn size2bin_index(size: u64) -> (r: usize)
    ensures
        r == bin_index_spec(size as int),
        r < BINS_NO,
        size <= STANDARD_ALIGN ==> r == 0,
        size >= PAGE_SIZE ==> r == BINS_NO - 1,
        STANDARD_ALIGN < size < PAGE_SIZE ==> 8 * pow2(r as nat) < size <= 16 * pow2(r as nat),
{
    if size <= STANDARD_ALIGN {
        0
    } else if size >= PAGE_SIZE {
        (BINS_NO - 1) as usize
    } else {
        proof {
            lemma2_to64();
        }
        // next power of two of `size`, and its exponent
        let mut npot: u64 = 1;
        let mut exp: u64 = 0;
        while npot < size
            invariant
                16 < size < 4096,
                npot == pow2(exp as nat),
                exp <= 12,
                exp > 0 ==> pow2((exp - 1) as nat) < size,
                pow2(0) == 1 && pow2(1) == 2 && pow2(2) == 4 && pow2(3) == 8 && pow2(4) == 16
                    && pow2(5) == 32 && pow2(6) == 64 && pow2(7) == 128 && pow2(8) == 256 && pow2(9)
                    == 512 && pow2(10) == 1024 && pow2(11) == 2048 && pow2(12) == 4096 && pow2(13)
                    == 8192,
            decreases 4096 - npot,
        {
            assert(exp < 12);
            proof {
                vstd::arithmetic::power2::lemma_pow2_unfold((exp + 1) as nat);
            }
            npot = npot * 2;
            exp = exp + 1;
        }
        assert(exp >= 5);
        (exp - 4) as usize
    }
}

/// Serves requests below `POOL_SIZE` from ten size classes ("bins"), each
/// carving from a pool of its own. A pool stays mapped while its bin uses it or
/// while an allocation carved from it lives; the number of such holders is
/// kept in `pool_refs`, and when it drops to zero the pool is unmapped.
pub struct SmallAllocator {
    pool_alloc: PoolAllocator,
    bins: Vec<Bin>,
    addr2smeta: SmallMetaMap,
    pool_refs: U64Map,
    base: Ghost<u64>,
}

impl SmallAllocator {
    /// The live allocations, by address.
    pub closed spec fn spec_live(&self) -> Map<u64, SmallMeta> {
        small_meta_map_contents(self.addr2smeta)
    }

    /// The holders of each pool in use, by the pool's start.
    pub closed spec fn spec_refs(&self) -> Map<u64, u64> {
        u64_map_contents(self.pool_refs)
    }

    /// The pool that bin `i` carves from.
    pub closed spec fn spec_bin_pool(&self, i: int) -> Pool {
        self.bins@[i].pool
    }

    pub closed spec fn spec_pool_alloc(&self) -> PoolAllocator {
        self.pool_alloc
    }

    /// Where the allocator started: no pool lies below.
    pub closed spec fn spec_base(&self) -> u64 {
        self.base@
    }

    /// There is one bin per size class.
    pub closed spec fn has_all_bins(&self) -> bool {
        self.bins@.len() == BINS_NO
    }

    /// Some bin carves from the pool at `p`.
    pub open spec fn bin_holds(&self, p: u64) -> bool {
        exists|i: int| 0 <= i < BINS_NO && #[trigger] self.spec_bin_pool(i).spec_start() == p
    }

    /// Start of the next fresh pool.
    pub open spec fn frontier(&self) -> u64 {
        self.spec_pool_alloc().spec_next_pool()
    }

    /// A pool start as the pool allocator hands them out: a whole number of
    /// pools below the frontier.
    pub open spec fn is_pool_start(&self, p: u64) -> bool {
        &&& p + POOL_SIZE <= self.frontier()
        &&& (self.frontier() - p) % (POOL_SIZE as int) == 0
    }

    pub open spec fn bins_wf(&self) -> bool {
        forall|i: int|
            0 <= i < BINS_NO ==> {
                let p = #[trigger] self.spec_bin_pool(i);
                &&& self.is_pool_start(p.spec_start())
                &&& p.spec_end() == p.spec_start() + POOL_SIZE
                &&& p.spec_start() <= p.spec_next()
                &&& self.spec_refs().contains_key(p.spec_start())
            }
    }

    pub open spec fn bins_distinct(&self) -> bool {
        forall|i: int, j: int|
            0 <= i < BINS_NO && 0 <= j < BINS_NO && i != j ==> #[trigger] self.spec_bin_pool(
                i,
            ).spec_start() != #[trigger] self.spec_bin_pool(j).spec_start()
    }

    pub open spec fn refs_wf(&self) -> bool {
        forall|p: u64|
            #[trigger] self.spec_refs().contains_key(p) ==> {
                &&& self.is_pool_start(p)
                &&& p >= self.spec_base()
                &&& self.spec_refs()[p] >= 1
                &&& self.spec_refs()[p] == pool_live_count(self.spec_live(), p) + (if self.bin_holds(
                    p,
                ) {
                    1int
                } else {
                    0int
                })
            }
    }

    pub open spec fn live_wf(&self) -> bool {
        &&& self.spec_live().dom().finite()
        &&& forall|a: u64|
            #[trigger] self.spec_live().contains_key(a) ==> {
                let m = self.spec_live()[a];
                &&& self.spec_refs().contains_key(m.pool)
                &&& m.pool <= a
                &&& a + m.size <= m.pool + POOL_SIZE
            }
        &&& forall|a: u64, i: int|
            #![trigger self.spec_live()[a], self.spec_bin_pool(i)]
            self.spec_live().contains_key(a) && 0 <= i < BINS_NO ==> {
                let m = self.spec_live()[a];
                let p = self.spec_bin_pool(i);
                a + m.size <= p.spec_next() || a >= p.spec_end()
            }
        &&& forall|a: u64, b: u64|
            #![trigger self.spec_live()[a], self.spec_live()[b]]
            self.spec_live().contains_key(a) && self.spec_live().contains_key(b) && a != b
                ==> regions_disjoint(
                a as int,
                self.spec_live()[a].size as int,
                b as int,
                self.spec_live()[b].size as int,
            )
    }

    /// The allocator's invariant.
    pub open spec fn wf(&self) -> bool {
        &&& self.has_all_bins()
        &&& self.spec_pool_alloc().wf()
        &&& self.frontier() % STANDARD_ALIGN == 0
        &&& self.spec_base() <= self.frontier()
        &&& self.bins_wf()
        &&& self.bins_distinct()
        &&& self.refs_wf()
        &&& self.live_wf()
    }

    /// A pool has at most one holder per byte of it and the bin: its count
    /// stays far below the largest count.
    pub proof fn lemma_refs_bounded(&self, p: u64)
        requires
            self.wf(),
            self.spec_refs().contains_key(p),
        ensures
            self.spec_refs()[p] <= POOL_SIZE + 2,
    {
        let live = self.spec_live();
        let f = live.dom().filter(|a: u64| live[a].pool == p);
        live.dom().lemma_len_filter(|a: u64| live[a].pool == p);
        let cast = |a: u64| a as int;
        let fi = f.map(cast);
        let range = vstd::set_lib::set_int_range(p as int, p + POOL_SIZE + 1);
        vstd::set_lib::lemma_int_range(p as int, p + POOL_SIZE + 1);
        assert(vstd::relations::injective_on(cast, f));
        vstd::set_lib::lemma_map_size(f, fi, cast);
        assert forall|x: int| fi.contains(x) implies range.contains(x) by {
            let a = choose|a: u64| f.contains(a) && cast(a) == x;
            assert(live.contains_key(a));
        }
        vstd::set_lib::lemma_len_subset(fi, range);
    }

    /// A pool stays in the table exactly while something holds it: a live
    /// allocation carved from it, or the bin that carves from it. Its count is
    /// the number of those holders, so it leaves the table, and is given
    /// back, with its last holder.
    pub proof fn lemma_pool_in_use(&self, p: u64)
        requires
            self.wf(),
        ensures
            self.spec_refs().contains_key(p) <==> (pool_live_count(self.spec_live(), p) > 0
                || self.bin_holds(p)),
            self.spec_refs().contains_key(p) ==> self.spec_refs()[p] == pool_live_count(
                self.spec_live(),
                p,
            ) + (if self.bin_holds(p) {
                1int
            } else {
                0int
            }),
    {
        let live = self.spec_live();
        let f = live.dom().filter(|a: u64| live[a].pool == p);
        live.dom().lemma_len_filter(|a: u64| live[a].pool == p);
        if pool_live_count(live, p) > 0 {
            vstd::set::axiom_set_choose_len(f);
            let a = f.choose();
            assert(live.contains_key(a) && live[a].pool == p);
        }
        if self.bin_holds(p) {
            let i = choose|i: int| 0 <= i < BINS_NO && #[trigger] self.spec_bin_pool(i).spec_start() == p;
        }
    }

    /// What `usable_size(addr)` returns.
    pub open spec fn usable_size_spec(&self, addr: u64) -> u64 {
        match self.spec_live().get(addr) {
            Some(m) => m.size,
            None => 0,
        }
    }

    /// A request of some bytes does not land on a live allocation of some
    /// bytes.
    pub proof fn lemma_carve_misses_live(&self, size: u64, a: u64)
        requires
            self.wf(),
            0 < size <= POOL_SIZE,
            self.spec_live().contains_key(a),
            self.spec_live()[a].size > 0,
        ensures
            self.next_addr_spec(size) != a,
    {
        let i = bin_index_spec(size as int);
        lemma_bin_index(size as int, size as int);
        let p = self.spec_bin_pool(i);
        let m = self.spec_live()[a];
        let x = align_up_spec(p.spec_next() as int, STANDARD_ALIGN as int);
        assert(x >= p.spec_next()) by (nonlinear_arith)
            requires
                x == ((p.spec_next() + 16 - 1) / 16) * 16,
                p.spec_next() >= 0,
        ;
        assert(a + m.size <= p.spec_next() || a >= p.spec_end());
        assert(self.spec_refs().contains_key(m.pool));
    }

    /// What `next_addr` hands out, `usable_size` reads back: once some bytes
    /// live at `a`, the usable size there stays the same through any run of
    /// requests of some bytes and frees of other addresses (`frees[i]` tells
    /// which step `i` is); a free of `a` itself makes it 0.
    pub proof fn lemma_usable_size_kept(
        states: Seq<SmallAllocator>,
        frees: Seq<bool>,
        sizes: Seq<u64>,
        addrs: Seq<u64>,
        a: u64,
    )
        requires
            states.len() == frees.len() + 1,
            sizes.len() == frees.len(),
            addrs.len() == frees.len(),
            states[0].wf(),
            states[0].spec_live().contains_key(a),
            states[0].spec_live()[a].size > 0,
            forall|i: int|
                0 <= i < frees.len() ==> if #[trigger] frees[i] {
                    &&& addrs[i] != a
                    &&& states[i].free_post(states[i + 1], addrs[i])
                    &&& states[i + 1].wf()
                } else {
                    &&& 0 < sizes[i] <= POOL_SIZE
                    &&& addrs[i] == states[i].next_addr_spec(sizes[i])
                    &&& states[i].next_addr_post(states[i + 1], sizes[i], addrs[i])
                    &&& states[i + 1].wf()
                },
        ensures
            states.last().usable_size_spec(a) == states[0].usable_size_spec(a),
            states.last().spec_live().contains_key(a),
            states.last().spec_live()[a] == states[0].spec_live()[a],
        decreases frees.len(),
    {
        if frees.len() > 0 {
            let k = frees.len() - 1;
            Self::lemma_usable_size_kept(
                states.drop_last(),
                frees.drop_last(),
                sizes.drop_last(),
                addrs.drop_last(),
                a,
            );
            let pre = states[k];
            assert(states.drop_last().last() == pre);
            assert(frees[k] == frees[k]);
            if k > 0 {
                let j = k - 1;
                if frees[j] {
                    assert(states[j + 1].wf());
                } else {
                    assert(states[j + 1].wf());
                }
                assert(states[j + 1] == pre);
            }
            assert(pre.wf());
            if !frees[k] {
                pre.lemma_carve_misses_live(sizes[k], a);
            }
        }
    }

    /// Once `a` is freed, `usable_size` there reads 0.
    pub proof fn lemma_usable_size_after_free(&self, post: SmallAllocator, a: u64)
        requires
            self.free_post(post, a),
        ensures
            post.usable_size_spec(a) == 0,
    {
    }

    /// Whether `next_addr(size)` can run without an arithmetic overflow.
    pub open spec fn can_alloc(&self, size: u64) -> bool {
        let p = self.spec_bin_pool(bin_index_spec(size as int));
        let a = align_up_spec(p.spec_next() as int, STANDARD_ALIGN as int);
        &&& p.spec_next() + STANDARD_ALIGN <= u64::MAX
        &&& a + size <= u64::MAX
        &&& a + size > p.spec_end() ==> self.spec_pool_alloc().can_take_pool()
        &&& a + size <= p.spec_end() ==> self.spec_refs()[p.spec_start()] < u64::MAX
    }

    /// Starts the allocator at `first_addr`: maps the first tank there and
    /// gives each bin one of its first pools, bin `i` the `i`-th.
    pub fn new_in(first_addr: u64, ops: &mut Vec<MmanOp>) -> (sa: SmallAllocator)
        requires
            first_addr % STANDARD_ALIGN == 0,
            first_addr + TANK_SIZE <= u64::MAX,
        ensures
            sa.wf(),
            sa.spec_live() == Map::<u64, SmallMeta>::empty(),
            sa.spec_base() == first_addr,
            sa.frontier() == first_addr + BINS_NO * POOL_SIZE,
            sa.spec_pool_alloc().spec_last_mapped() == first_addr + TANK_SIZE,
            forall|i: int|
                0 <= i < BINS_NO ==> {
                    &&& #[trigger] sa.spec_bin_pool(i).spec_start() == first_addr + i * POOL_SIZE
                    &&& sa.spec_bin_pool(i).spec_next() == sa.spec_bin_pool(i).spec_start()
                    &&& sa.spec_bin_pool(i).spec_end() == sa.spec_bin_pool(i).spec_start() + POOL_SIZE
                    &&& sa.spec_refs()[sa.spec_bin_pool(i).spec_start()] == 1
                },
            forall|p: u64|
                #[trigger] sa.spec_refs().contains_key(p) <==> exists|i: int|
                    0 <= i < BINS_NO && p == #[trigger] nth_pool(first_addr, i),
            final(ops)@ == old(ops)@.push(MmanOp::Mmap { addr: first_addr, size: TANK_SIZE }),
    {
        let mut pool_alloc = PoolAllocator::new(first_addr, ops);
        let ghost ops0 = ops@;
        let mut bins: Vec<Bin> = Vec::new();
        let mut pool_refs = U64Map::with_capacity(BINS_NO);
        let mut i: u64 = 0;
        while i < BINS_NO
            invariant
                i <= BINS_NO,
                first_addr + TANK_SIZE <= u64::MAX,
                pool_alloc.wf(),
                pool_alloc.spec_next_pool() == first_addr + i * POOL_SIZE,
                pool_alloc.spec_last_mapped() == first_addr + TANK_SIZE,
                ops@ == ops0,
                bins@.len() == i,
                forall|j: int|
                    0 <= j < i ==> {
                        let p = #[trigger] bins@[j].pool;
                        &&& p.spec_start() == first_addr + j * POOL_SIZE
                        &&& p.spec_end() == p.spec_start() + POOL_SIZE
                        &&& p.spec_next() == p.spec_start()
                    },
                forall|p: u64|
                    #[trigger] u64_map_contents(pool_refs).contains_key(p) <==> (exists|j: int|
                        0 <= j < i && p == #[trigger] nth_pool(first_addr, j)),
                forall|p: u64|
                    #[trigger] u64_map_contents(pool_refs).contains_key(p) ==> u64_map_contents(
                        pool_refs,
                    )[p] == 1,
            decreases BINS_NO - i,
        {
            assert(pool_alloc.spec_next_pool() + POOL_SIZE <= first_addr + TANK_SIZE) by (nonlinear_arith)
                requires
                    pool_alloc.spec_next_pool() == first_addr + i * POOL_SIZE,
                    i < BINS_NO,
            ;
            let pool = pool_alloc.next_pool(ops);
            let start = pool.start_addr();
            pool_refs.insert(start, 1);
            bins.push(Bin::new(pool));
            proof {
                assert forall|p: u64|
                    #[trigger] u64_map_contents(pool_refs).contains_key(p) <==> (exists|j: int|
                        0 <= j < i + 1 && p == #[trigger] nth_pool(first_addr, j)) by {
                    if p == start {
                        assert(p == nth_pool(first_addr, i as int));
                    }
                }
            }
            assert(first_addr + (i + 1) * POOL_SIZE == first_addr + i * POOL_SIZE + POOL_SIZE)
                by (nonlinear_arith);
            i = i + 1;
        }
        let sa = SmallAllocator {
            pool_alloc,
            bins,
            addr2smeta: SmallMetaMap::with_capacity(RESV_ADDRS_NO),
            pool_refs,
            base: Ghost(first_addr),
        };
        proof {
            assert(sa.spec_live().dom() =~= Set::<u64>::empty());
            assert forall|p: u64| #[trigger] sa.spec_refs().contains_key(p) implies {
                &&& sa.is_pool_start(p)
                &&& p >= sa.spec_base()
                &&& sa.spec_refs()[p] >= 1
                &&& sa.spec_refs()[p] == pool_live_count(sa.spec_live(), p) + (if sa.bin_holds(p) {
                    1int
                } else {
                    0int
                })
            } by {
                let j = choose|j: int| 0 <= j < BINS_NO && p == nth_pool(first_addr, j);
                assert(sa.spec_bin_pool(j).spec_start() == p);
                assert(sa.bin_holds(p));
                assert(p >= first_addr) by (nonlinear_arith)
                    requires
                        p == nth_pool(first_addr, j),
                        0 <= j,
                ;
                assert(sa.spec_live().dom().filter(|a: u64| sa.spec_live()[a].pool == p)
                    =~= Set::<u64>::empty());
                assert((BINS_NO - j) * POOL_SIZE == (first_addr + BINS_NO * POOL_SIZE) - p);
                vstd::arithmetic::div_mod::lemma_mod_multiples_basic(BINS_NO - j, POOL_SIZE as int);
            }
            assert forall|i: int| 0 <= i < BINS_NO implies {
                let p = #[trigger] sa.spec_bin_pool(i);
                &&& sa.is_pool_start(p.spec_start())
                &&& p.spec_end() == p.spec_start() + POOL_SIZE
                &&& p.spec_start() <= p.spec_next()
                &&& sa.spec_refs().contains_key(p.spec_start())
            } by {
                let p = sa.spec_bin_pool(i);
                assert(nth_pool(first_addr, i) == p.spec_start());
                assert(sa.spec_refs().contains_key(p.spec_start()));
                assert((BINS_NO - i) * POOL_SIZE == (first_addr + BINS_NO * POOL_SIZE) - p.spec_start());
                vstd::arithmetic::div_mod::lemma_mod_multiples_basic(BINS_NO - i, POOL_SIZE as int);
            }
        }
        sa
    }

    /// The invariant depends only on the contents of the tables.
    proof fn lemma_wf_same_view(a: SmallAllocator, b: SmallAllocator)
        requires
            a.wf(),
            a.spec_live() == b.spec_live(),
            a.spec_refs() == b.spec_refs(),
            a.bins == b.bins,
            a.pool_alloc == b.pool_alloc,
            a.base == b.base,
        ensures
            b.wf(),
    {
        assert forall|p: u64| #[trigger] b.bin_holds(p) == a.bin_holds(p) by {
            if b.bin_holds(p) {
                let i = choose|i: int|
                    0 <= i < BINS_NO && #[trigger] b.spec_bin_pool(i).spec_start() == p;
                assert(a.spec_bin_pool(i).spec_start() == p);
            }
            if a.bin_holds(p) {
                let i = choose|i: int|
                    0 <= i < BINS_NO && #[trigger] a.spec_bin_pool(i).spec_start() == p;
                assert(b.spec_bin_pool(i).spec_start() == p);
            }
        }
        assert(b.refs_wf());
        assert forall|i: int| 0 <= i < BINS_NO implies {
            let p = #[trigger] b.spec_bin_pool(i);
            &&& b.is_pool_start(p.spec_start())
            &&& p.spec_end() == p.spec_start() + POOL_SIZE
            &&& p.spec_start() <= p.spec_next()
            &&& b.spec_refs().contains_key(p.spec_start())
        } by {
            assert(a.spec_bin_pool(i) == b.spec_bin_pool(i));
        }
        assert forall|i: int, j: int|
            0 <= i < BINS_NO && 0 <= j < BINS_NO && i != j implies #[trigger] b.spec_bin_pool(
            i,
        ).spec_start() != #[trigger] b.spec_bin_pool(j).spec_start() by {
            assert(a.spec_bin_pool(i) == b.spec_bin_pool(i));
            assert(a.spec_bin_pool(j) == b.spec_bin_pool(j));
        }
        assert forall|a0: u64, i: int|
            b.spec_live().contains_key(a0) && 0 <= i < BINS_NO implies {
            let m = #[trigger] b.spec_live()[a0];
            let p = #[trigger] b.spec_bin_pool(i);
            a0 + m.size <= p.spec_next() || a0 >= p.spec_end()
        } by {
            assert(a.spec_bin_pool(i) == b.spec_bin_pool(i));
        }
        assert(b.live_wf());
    }

    /// Drops one holder of the pool at `p`; the last one gives the pool back.
    fn release_pool(&mut self, p: u64, ops: &mut Vec<MmanOp>)
        requires
            old(self).spec_refs().contains_key(p),
            old(self).spec_refs()[p] >= 1,
        ensures
            final(self).addr2smeta == old(self).addr2smeta,
            final(self).bins == old(self).bins,
            final(self).pool_alloc == old(self).pool_alloc,
            final(self).base == old(self).base,
            if old(self).spec_refs()[p] == 1 {
                &&& final(self).spec_refs() == old(self).spec_refs().remove(p)
                &&& final(ops)@ == old(ops)@.push(MmanOp::Munmap { addr: p, size: POOL_SIZE })
            } else {
                &&& final(self).spec_refs() == old(self).spec_refs().insert(
                    p,
                    (old(self).spec_refs()[p] - 1) as u64,
                )
                &&& final(ops)@ == old(ops)@
            },
    {
        if let Some(count) = self.pool_refs.get(p) {
            if count == 1 {
                self.pool_refs.remove(p);
                ops.push(MmanOp::Munmap { addr: p, size: POOL_SIZE });
            } else {
                self.pool_refs.insert(p, count - 1);
            }
        }
    }

    /// Gives bin `i` a fresh pool and releases the one it used.
    fn take_fresh_pool(&mut self, i: usize, ops: &mut Vec<MmanOp>)
        requires
            old(self).wf(),
            i < BINS_NO,
            old(self).spec_pool_alloc().can_take_pool(),
        ensures
            final(self).wf(),
            final(self).spec_live() == old(self).spec_live(),
            final(self).spec_bin_pool(i as int).spec_start() == old(self).frontier(),
            final(self).spec_bin_pool(i as int).spec_end() == old(self).frontier() + POOL_SIZE,
            final(self).spec_bin_pool(i as int).spec_next() == old(self).frontier(),
            final(self).spec_refs()[old(self).frontier()] == 1,
            final(self).spec_refs() == old(self).released_refs(
                old(self).spec_bin_pool(i as int).spec_start(),
            ).insert(old(self).frontier(), 1),
            forall|j: int|
                0 <= j < BINS_NO && j != i ==> #[trigger] final(self).spec_bin_pool(j) == old(
                    self,
                ).spec_bin_pool(j),
            final(self).frontier() == old(self).frontier() + POOL_SIZE,
            final(self).spec_base() == old(self).spec_base(),
            ({
                let pa = old(self).spec_pool_alloc();
                let grows = pa.spec_next_pool() + POOL_SIZE > pa.spec_last_mapped();
                let p = old(self).spec_bin_pool(i as int).spec_start();
                let ops1 = if grows {
                    old(ops)@.push(MmanOp::Mmap { addr: pa.spec_last_mapped(), size: TANK_SIZE })
                } else {
                    old(ops)@
                };
                &&& final(self).spec_pool_alloc().spec_last_mapped() == if grows {
                    pa.spec_last_mapped() + TANK_SIZE
                } else {
                    pa.spec_last_mapped() as int
                }
                &&& if old(self).spec_refs()[p] == 1 {
                    &&& final(ops)@ == ops1.push(MmanOp::Munmap { addr: p, size: POOL_SIZE })
                    &&& !final(self).bin_holds(p)
                    &&& forall|a: u64|
                        #[trigger] final(self).spec_live().contains_key(a) ==> regions_disjoint(
                            a as int,
                            final(self).spec_live()[a].size as int,
                            p as int,
                            POOL_SIZE as int,
                        )
                } else {
                    final(ops)@ == ops1
                }
            }),
    {
        let ghost pre = *self;
        let pool = self.pool_alloc.next_pool(ops);
        let start = pool.start_addr();
        let old_start = self.bins[i].pool.start_addr();
        self.bins[i].pool = pool;
        self.pool_refs.insert(start, 1);
        proof {
            // every pool already in use lies below the fresh one
            assert forall|q: u64| #[trigger] pre.spec_refs().contains_key(q) implies q + POOL_SIZE
                <= start by {}
            assert(pre.spec_bin_pool(i as int).spec_start() == old_start);
            assert(old_start != start);
        }
        let ghost mid = *self;
        self.release_pool(old_start, ops);
        proof {
            assert(self.spec_refs() =~= pre.released_refs(old_start).insert(start, 1));
            let front = self.frontier();
            assert(front == start + POOL_SIZE);
            assert forall|j: int| 0 <= j < BINS_NO && j != i implies #[trigger] self.spec_bin_pool(j)
                == pre.spec_bin_pool(j) by {}
            // which pools the bins hold
            assert forall|q: u64| #[trigger] self.bin_holds(q) == (q == start || (q != old_start
                && pre.bin_holds(q))) by {
                if self.bin_holds(q) {
                    let j = choose|j: int|
                        0 <= j < BINS_NO && #[trigger] self.spec_bin_pool(j).spec_start() == q;
                    if j != i {
                        assert(pre.spec_bin_pool(j).spec_start() == q);
                        assert(pre.spec_bin_pool(i as int).spec_start() != q);
                    }
                }
                if q == start {
                    assert(self.spec_bin_pool(i as int).spec_start() == q);
                }
                if q != old_start && pre.bin_holds(q) {
                    let j = choose|j: int|
                        0 <= j < BINS_NO && #[trigger] pre.spec_bin_pool(j).spec_start() == q;
                    assert(j != i);
                    assert(self.spec_bin_pool(j).spec_start() == q);
                }
            }
            // no live allocation lies in the fresh pool
            assert forall|a: u64| #[trigger] pre.spec_live().contains_key(a) implies pre.spec_live()[
                a].pool != start by {}
            assert(pre.spec_live().dom().filter(|a: u64| pre.spec_live()[a].pool == start)
                =~= Set::<u64>::empty());
            assert(pool_live_count(self.spec_live(), start) == 0);
            if pre.spec_refs()[old_start] == 1 {
                assert forall|a: u64| #[trigger] self.spec_live().contains_key(a) implies self.spec_live()[a].pool != old_start by {
                    lemma_count_zero(self.spec_live(), old_start, a);
                }
                assert forall|a: u64| #[trigger] self.spec_live().contains_key(a) implies regions_disjoint(
                    a as int,
                    self.spec_live()[a].size as int,
                    old_start as int,
                    POOL_SIZE as int,
                ) by {
                    let q = self.spec_live()[a].pool;
                    lemma_pool_starts_apart(pre.frontier() as int, old_start as int, q as int);
                }
            }
            assert forall|q: u64| #[trigger] self.spec_refs().contains_key(q) implies {
                &&& self.is_pool_start(q)
                &&& q >= self.spec_base()
                &&& self.spec_refs()[q] >= 1
                &&& self.spec_refs()[q] == pool_live_count(self.spec_live(), q) + (if self.bin_holds(q) {
                    1int
                } else {
                    0int
                })
            } by {
                if q != start {
                    assert(pre.spec_refs().contains_key(q));
                    lemma_pool_step(pre.frontier() as int, q as int);
                }
            }
            assert(self.refs_wf());
            assert forall|j: int| 0 <= j < BINS_NO implies {
                let p = #[trigger] self.spec_bin_pool(j);
                &&& self.is_pool_start(p.spec_start())
                &&& p.spec_end() == p.spec_start() + POOL_SIZE
                &&& p.spec_start() <= p.spec_next()
                &&& self.spec_refs().contains_key(p.spec_start())
            } by {
                if j != i {
                    let p = pre.spec_bin_pool(j);
                    assert(self.spec_bin_pool(j) == p);
                    lemma_pool_step(pre.frontier() as int, p.spec_start() as int);
                    assert(self.bin_holds(p.spec_start()));
                }
            }
            assert forall|j: int, k: int|
                0 <= j < BINS_NO && 0 <= k < BINS_NO && j != k implies #[trigger] self.spec_bin_pool(
                j,
            ).spec_start() != #[trigger] self.spec_bin_pool(k).spec_start() by {
                if j != i && k != i {
                    assert(self.spec_bin_pool(j) == pre.spec_bin_pool(j));
                    assert(self.spec_bin_pool(k) == pre.spec_bin_pool(k));
                } else if j != i {
                    assert(self.spec_bin_pool(j) == pre.spec_bin_pool(j));
                } else if k != i {
                    assert(self.spec_bin_pool(k) == pre.spec_bin_pool(k));
                }
            }
            assert forall|a: u64| #[trigger] self.spec_live().contains_key(a) implies {
                let m = self.spec_live()[a];
                &&& self.spec_refs().contains_key(m.pool)
                &&& m.pool <= a
                &&& a + m.size <= m.pool + POOL_SIZE
            } by {}
            assert forall|a: u64, j: int|
                self.spec_live().contains_key(a) && 0 <= j < BINS_NO implies {
                let m = #[trigger] self.spec_live()[a];
                let p = #[trigger] self.spec_bin_pool(j);
                a + m.size <= p.spec_next() || a >= p.spec_end()
            } by {
                if j != i {
                    assert(self.spec_bin_pool(j) == pre.spec_bin_pool(j));
                } else {
                    let m = self.spec_live()[a];
                    assert(pre.spec_refs().contains_key(m.pool));
                }
            }
            assert(self.live_wf());
        }
    }

    /// How `next_addr(size)` changes the allocator into `post` when it hands
    /// out `addr`: the bin of `size` carves `addr` from its pool, or from a
    /// fresh pool that it takes in place of the old one, and the allocation
    /// is recorded, holding its pool; an allocation recorded at `addr` before
    /// (one of no bytes) is dropped and stops holding its pool.
    pub open spec fn next_addr_post(&self, post: SmallAllocator, size: u64, addr: u64) -> bool {
        let i = bin_index_spec(size as int);
        let p = self.spec_bin_pool(i);
        let a = align_up_spec(p.spec_next() as int, STANDARD_ALIGN as int);
        let q = post.spec_bin_pool(i);
        let pa = self.spec_pool_alloc();
        &&& post.spec_base() == self.spec_base()
        &&& post.spec_live() == self.spec_live().insert(addr, SmallMeta { size, pool: q.spec_start() })
        &&& forall|j: int|
            0 <= j < BINS_NO && j != i ==> #[trigger] post.spec_bin_pool(j) == self.spec_bin_pool(j)
        &&& q.spec_next() == addr + size
        &&& if a + size <= p.spec_end() {
            &&& addr == a
            &&& q.spec_start() == p.spec_start()
            &&& q.spec_end() == p.spec_end()
            &&& post.spec_pool_alloc() == pa
        } else {
            &&& addr == self.frontier()
            &&& q.spec_start() == addr
            &&& q.spec_end() == addr + POOL_SIZE
            &&& post.frontier() == self.frontier() + POOL_SIZE
            &&& post.spec_pool_alloc().spec_last_mapped() == if pa.spec_next_pool() + POOL_SIZE
                > pa.spec_last_mapped() {
                pa.spec_last_mapped() + TANK_SIZE
            } else {
                pa.spec_last_mapped() as int
            }
        }
        &&& post.spec_refs() == match self.spec_live().get(addr) {
            Some(m) => release_ref(self.counted_refs(size), m.pool),
            None => self.counted_refs(size),
        }
    }

    /// How `free(addr)` changes the allocator into `post`: the allocation at
    /// `addr`, if any, is forgotten and stops holding its pool.
    pub open spec fn free_post(&self, post: SmallAllocator, addr: u64) -> bool {
        &&& post.spec_base() == self.spec_base()
        &&& post.spec_live() == self.spec_live().remove(addr)
        &&& forall|i: int|
            0 <= i < BINS_NO ==> #[trigger] post.spec_bin_pool(i) == self.spec_bin_pool(i)
        &&& post.spec_pool_alloc() == self.spec_pool_alloc()
        &&& post.spec_refs() == match self.spec_live().get(addr) {
            Some(m) => self.released_refs(m.pool),
            None => self.spec_refs(),
        }
    }

    /// `op` maps memory, or gives back a whole pool that nothing holds any
    /// more.
    pub open spec fn gives_back_dead_pool(&self, op: MmanOp) -> bool {
        match op {
            MmanOp::Munmap { addr, size } => {
                &&& size == POOL_SIZE
                &&& self.is_pool_start(addr)
                &&& !self.spec_refs().contains_key(addr)
            },
            MmanOp::Mmap { .. } => true,
        }
    }

    /// The holder counts once one holder of the pool at `p` is dropped.
    pub open spec fn released_refs(&self, p: u64) -> Map<u64, u64> {
        release_ref(self.spec_refs(), p)
    }

    /// The holder counts once `next_addr(size)` has counted its allocation
    /// as a holder of the pool it is carved from (and, when that pool is a
    /// fresh one, the bin as its other holder), before any allocation that
    /// the new one replaces is dropped.
    pub open spec fn counted_refs(&self, size: u64) -> Map<u64, u64> {
        let p = self.spec_bin_pool(bin_index_spec(size as int));
        let a = align_up_spec(p.spec_next() as int, STANDARD_ALIGN as int);
        if a + size <= p.spec_end() {
            self.spec_refs().insert(p.spec_start(), (self.spec_refs()[p.spec_start()] + 1) as u64)
        } else {
            self.released_refs(p.spec_start()).insert(self.frontier(), 2)
        }
    }

    /// The operations that `take_fresh_pool` issues for bin `i`, after `ops`.
    pub open spec fn fresh_pool_ops(&self, i: int, ops: Seq<MmanOp>) -> Seq<MmanOp> {
        let pa = self.spec_pool_alloc();
        let p = self.spec_bin_pool(i).spec_start();
        let ops1 = if pa.spec_next_pool() + POOL_SIZE > pa.spec_last_mapped() {
            ops.push(MmanOp::Mmap { addr: pa.spec_last_mapped(), size: TANK_SIZE })
        } else {
            ops
        };
        if self.spec_refs()[p] == 1 {
            ops1.push(MmanOp::Munmap { addr: p, size: POOL_SIZE })
        } else {
            ops1
        }
    }

    /// The address that `next_addr(size)` hands out: the next aligned address
    /// of the pool of the bin of `size` when `size` bytes fit there, else the
    /// start of a fresh pool.
    pub open spec fn next_addr_spec(&self, size: u64) -> int {
        let p = self.spec_bin_pool(bin_index_spec(size as int));
        let a = align_up_spec(p.spec_next() as int, STANDARD_ALIGN as int);
        if a + size <= p.spec_end() {
            a
        } else {
            self.frontier() as int
        }
    }

    /// The operations that `next_addr(size)` issues, after `ops`.
    pub open spec fn next_addr_ops(&self, size: u64, ops: Seq<MmanOp>) -> Seq<MmanOp> {
        let i = bin_index_spec(size as int);
        let p = self.spec_bin_pool(i);
        let a = align_up_spec(p.spec_next() as int, STANDARD_ALIGN as int);
        let ops1 = if a + size <= p.spec_end() {
            ops
        } else {
            self.fresh_pool_ops(i, ops)
        };
        match self.spec_live().get(self.next_addr_spec(size) as u64) {
            Some(m) => if self.counted_refs(size)[m.pool] == 1 {
                ops1.push(MmanOp::Munmap { addr: m.pool, size: POOL_SIZE })
            } else {
                ops1
            },
            None => ops1,
        }
    }

    /// The operations that `free(addr)` issues, after `ops`: the pool of the
    /// allocation is given back when the allocation was its last holder.
    pub open spec fn free_ops(&self, addr: u64, ops: Seq<MmanOp>) -> Seq<MmanOp> {
        match self.spec_live().get(addr) {
            Some(m) => if self.spec_refs()[m.pool] == 1 {
                ops.push(MmanOp::Munmap { addr: m.pool, size: POOL_SIZE })
            } else {
                ops
            },
            None => ops,
        }
    }

    /// Advancing the bump pointer of a bin's pool keeps the invariant.
    proof fn lemma_bump(pre: SmallAllocator, post: SmallAllocator, i: int)
        requires
            pre.wf(),
            0 <= i < BINS_NO,
            post.pool_alloc == pre.pool_alloc,
            post.addr2smeta == pre.addr2smeta,
            post.pool_refs == pre.pool_refs,
            post.base == pre.base,
            post.bins@.len() == BINS_NO,
            forall|j: int| 0 <= j < BINS_NO && j != i ==> post.bins@[j] == pre.bins@[j],
            post.spec_bin_pool(i).spec_start() == pre.spec_bin_pool(i).spec_start(),
            post.spec_bin_pool(i).spec_end() == pre.spec_bin_pool(i).spec_end(),
            post.spec_bin_pool(i).spec_next() >= pre.spec_bin_pool(i).spec_next(),
        ensures
            post.wf(),
    {
        assert forall|q: u64| #[trigger] post.bin_holds(q) == pre.bin_holds(q) by {
            if post.bin_holds(q) {
                let j = choose|j: int|
                    0 <= j < BINS_NO && #[trigger] post.spec_bin_pool(j).spec_start() == q;
                assert(pre.spec_bin_pool(j).spec_start() == q);
            }
            if pre.bin_holds(q) {
                let j = choose|j: int|
                    0 <= j < BINS_NO && #[trigger] pre.spec_bin_pool(j).spec_start() == q;
                assert(post.spec_bin_pool(j).spec_start() == q);
            }
        }
        assert(post.refs_wf());
        assert forall|j: int| 0 <= j < BINS_NO implies {
            let p = #[trigger] post.spec_bin_pool(j);
            &&& post.is_pool_start(p.spec_start())
            &&& p.spec_end() == p.spec_start() + POOL_SIZE
            &&& p.spec_start() <= p.spec_next()
            &&& post.spec_refs().contains_key(p.spec_start())
        } by {
            assert(pre.spec_bin_pool(j).spec_start() == post.spec_bin_pool(j).spec_start());
        }
        assert forall|j: int, k: int|
            0 <= j < BINS_NO && 0 <= k < BINS_NO && j != k implies #[trigger] post.spec_bin_pool(
            j,
        ).spec_start() != #[trigger] post.spec_bin_pool(k).spec_start() by {
            assert(pre.spec_bin_pool(j).spec_start() == post.spec_bin_pool(j).spec_start());
            assert(pre.spec_bin_pool(k).spec_start() == post.spec_bin_pool(k).spec_start());
        }
        assert forall|a: u64, j: int|
            post.spec_live().contains_key(a) && 0 <= j < BINS_NO implies {
            let m = #[trigger] post.spec_live()[a];
            let p = #[trigger] post.spec_bin_pool(j);
            a + m.size <= p.spec_next() || a >= p.spec_end()
        } by {
            assert(pre.spec_bin_pool(j).spec_end() == post.spec_bin_pool(j).spec_end());
            assert(pre.spec_bin_pool(j).spec_next() <= post.spec_bin_pool(j).spec_next());
        }
        assert(post.live_wf());
    }

    /// Recording a new allocation `[addr, addr + size)` at the end of what
    /// bin `i` has carved, as a holder of the bin's pool, keeps the
    /// invariant; an allocation recorded at `addr` before is dropped and
    /// stops holding its pool.
    proof fn lemma_record(mid: SmallAllocator, post: SmallAllocator, i: int, addr: u64, size: u64)
        requires
            mid.wf(),
            0 <= i < BINS_NO,
            mid.spec_bin_pool(i).spec_start() <= addr,
            addr + size == mid.spec_bin_pool(i).spec_next(),
            mid.spec_bin_pool(i).spec_next() <= mid.spec_bin_pool(i).spec_end(),
            mid.spec_refs()[mid.spec_bin_pool(i).spec_start()] < u64::MAX,
            forall|a: u64|
                #[trigger] mid.spec_live().contains_key(a) && a != addr ==> regions_disjoint(
                    a as int,
                    mid.spec_live()[a].size as int,
                    addr as int,
                    size as int,
                ),
            post.bins == mid.bins,
            post.pool_alloc == mid.pool_alloc,
            post.base == mid.base,
            post.spec_live() == mid.spec_live().insert(
                addr,
                SmallMeta { size, pool: mid.spec_bin_pool(i).spec_start() },
            ),
            ({
                let pool = mid.spec_bin_pool(i).spec_start();
                let c = mid.spec_refs().insert(pool, (mid.spec_refs()[pool] + 1) as u64);
                post.spec_refs() == match mid.spec_live().get(addr) {
                    Some(m) => release_ref(c, m.pool),
                    None => c,
                }
            }),
        ensures
            post.wf(),
    {
        let pool = mid.spec_bin_pool(i).spec_start();
        let c = mid.spec_refs().insert(pool, (mid.spec_refs()[pool] + 1) as u64);
        let nm = SmallMeta { size, pool };
        let replaced = mid.spec_live().contains_key(addr);
        assert forall|q: u64| #[trigger] post.bin_holds(q) == mid.bin_holds(q) by {
            if post.bin_holds(q) {
                let j = choose|j: int|
                    0 <= j < BINS_NO && #[trigger] post.spec_bin_pool(j).spec_start() == q;
                assert(mid.spec_bin_pool(j).spec_start() == q);
            }
            if mid.bin_holds(q) {
                let j = choose|j: int|
                    0 <= j < BINS_NO && #[trigger] mid.spec_bin_pool(j).spec_start() == q;
                assert(post.spec_bin_pool(j).spec_start() == q);
            }
        }
        assert(mid.bin_holds(pool)) by {
            assert(mid.spec_bin_pool(i).spec_start() == pool);
        }
        if replaced {
            let m = mid.spec_live()[addr];
            assert(mid.spec_refs().contains_key(m.pool));
            // the replaced allocation holds its pool
            if pool_live_count(mid.spec_live(), m.pool) == 0 {
                lemma_count_zero(mid.spec_live(), m.pool, addr);
            }
        }
        // a pool leaves the table only when nothing holds it any more
        assert forall|q: u64| #[trigger] mid.spec_refs().contains_key(q) && !post.spec_refs().contains_key(q)
            implies replaced && q == mid.spec_live()[addr].pool && mid.spec_refs()[q] == 1 && q != pool
            && !mid.bin_holds(q) && pool_live_count(mid.spec_live().remove(addr), q) == 0 by {
            if replaced {
                lemma_count_remove(mid.spec_live(), addr, q);
            }
        }
        assert forall|q: u64| #[trigger] post.spec_refs().contains_key(q) implies {
            &&& post.is_pool_start(q)
            &&& q >= post.spec_base()
            &&& post.spec_refs()[q] >= 1
            &&& post.spec_refs()[q] == pool_live_count(post.spec_live(), q) + (if post.bin_holds(q) {
                1int
            } else {
                0int
            })
        } by {
            lemma_count_replace(mid.spec_live(), addr, nm, q);
            assert(mid.spec_refs().contains_key(q));
        }
        assert(post.refs_wf());
        assert forall|j: int| 0 <= j < BINS_NO implies {
            let p = #[trigger] post.spec_bin_pool(j);
            &&& post.is_pool_start(p.spec_start())
            &&& p.spec_end() == p.spec_start() + POOL_SIZE
            &&& p.spec_start() <= p.spec_next()
            &&& post.spec_refs().contains_key(p.spec_start())
        } by {
            assert(mid.spec_bin_pool(j) == post.spec_bin_pool(j));
            assert(mid.bin_holds(mid.spec_bin_pool(j).spec_start()));
        }
        assert forall|j: int, k: int|
            0 <= j < BINS_NO && 0 <= k < BINS_NO && j != k implies #[trigger] post.spec_bin_pool(
            j,
        ).spec_start() != #[trigger] post.spec_bin_pool(k).spec_start() by {
            assert(mid.spec_bin_pool(j) == post.spec_bin_pool(j));
            assert(mid.spec_bin_pool(k) == post.spec_bin_pool(k));
        }
        lemma_count_replace(mid.spec_live(), addr, nm, pool);
        assert forall|a: u64| #[trigger] post.spec_live().contains_key(a) implies {
            let m = post.spec_live()[a];
            &&& post.spec_refs().contains_key(m.pool)
            &&& m.pool <= a
            &&& a + m.size <= m.pool + POOL_SIZE
        } by {
            if a != addr {
                let q = mid.spec_live()[a].pool;
                assert(mid.spec_refs().contains_key(q));
                assert(mid.spec_live().remove(addr).contains_key(a));
                if pool_live_count(mid.spec_live().remove(addr), q) == 0 {
                    if replaced {
                        lemma_count_remove(mid.spec_live(), addr, q);
                    } else {
                        assert(mid.spec_live().remove(addr) =~= mid.spec_live());
                    }
                    lemma_count_zero(mid.spec_live().remove(addr), q, a);
                }
            }
        }
        assert forall|a: u64, j: int|
            post.spec_live().contains_key(a) && 0 <= j < BINS_NO implies {
            let m = #[trigger] post.spec_live()[a];
            let p = #[trigger] post.spec_bin_pool(j);
            a + m.size <= p.spec_next() || a >= p.spec_end()
        } by {
            let p = post.spec_bin_pool(j);
            assert(mid.spec_bin_pool(j) == p);
            if a == addr && j != i {
                let pi = mid.spec_bin_pool(i);
                lemma_pool_starts_apart(mid.frontier() as int, pi.spec_start() as int, p.spec_start() as int);
            }
        }
        assert forall|a: u64, b: u64|
            post.spec_live().contains_key(a) && post.spec_live().contains_key(b) && a
                != b implies regions_disjoint(
            a as int,
            #[trigger] post.spec_live()[a].size as int,
            b as int,
            #[trigger] post.spec_live()[b].size as int,
        ) by {}
        assert(post.live_wf());
    }

    /// Every pool that `next_addr` gives back is one that nothing holds any
    /// more.
    proof fn lemma_dead_pools(
        pre: SmallAllocator,
        post: SmallAllocator,
        size: u64,
        addr: u64,
        old_ops: Seq<MmanOp>,
        ops: Seq<MmanOp>,
    )
        requires
            pre.wf(),
            post.wf(),
            size <= POOL_SIZE,
            addr == pre.next_addr_spec(size),
            pre.next_addr_post(post, size, addr),
            ops == pre.next_addr_ops(size, old_ops),
        ensures
            forall|k: int|
                old_ops.len() <= k < ops.len() ==> post.gives_back_dead_pool(#[trigger] ops[k]),
    {
        let i = bin_index_spec(size as int);
        lemma_bin_index(size as int, size as int);
        let p = pre.spec_bin_pool(i);
        let ps = p.spec_start();
        let a = align_up_spec(p.spec_next() as int, STANDARD_ALIGN as int);
        let c = pre.counted_refs(size);
        assert(pre.bin_holds(ps)) by {
            assert(pre.spec_bin_pool(i).spec_start() == ps);
        }
        assert(pre.spec_refs().contains_key(ps));
        let in_pool = a + size <= p.spec_end();
        let ops1 = if in_pool {
            old_ops
        } else {
            pre.fresh_pool_ops(i, old_ops)
        };
        if let Some(m) = pre.spec_live().get(addr) {
            assert(pre.spec_refs().contains_key(m.pool));
            if pool_live_count(pre.spec_live(), m.pool) == 0 {
                lemma_count_zero(pre.spec_live(), m.pool, addr);
            }
            if !in_pool && pre.spec_refs()[ps] == 1 {
                assert(m.pool != ps);
            }
        }
        assert forall|k: int| old_ops.len() <= k < ops.len() implies post.gives_back_dead_pool(
            #[trigger] ops[k],
        ) by {
            if let MmanOp::Munmap { addr: x, size: sz } = ops[k] {
                if k < ops1.len() {
                    // the old pool of the bin, given back when it takes a fresh one
                    assert(!in_pool);
                    assert(x == ps);
                    lemma_pool_step(pre.frontier() as int, ps as int);
                } else {
                    let m = pre.spec_live()[addr];
                    assert(x == m.pool);
                    if in_pool {
                        assert(post.frontier() == pre.frontier());
                    } else {
                        lemma_pool_step(pre.frontier() as int, m.pool as int);
                    }
                }
            }
        }
    }

    /// Carves `size` bytes for a request below a pool from the bin of `size`,
    /// taking a fresh pool for the bin when they do not fit in its current
    /// one, and records the allocation.
    pub fn next_addr(&mut self, size: u64, ops: &mut Vec<MmanOp>) -> (addr: u64)
        requires
            old(self).wf(),
            size <= POOL_SIZE,
            old(self).can_alloc(size),
        ensures
            final(self).wf(),
            old(self).next_addr_post(*final(self), size, addr),
            addr == old(self).next_addr_spec(size),
            final(ops)@ == old(self).next_addr_ops(size, old(ops)@),
            forall|k: int|
                old(ops)@.len() <= k < final(ops)@.len() ==> {
                    &&& unmaps_within(
                        #[trigger] final(ops)@[k],
                        old(self).spec_base() as int,
                        final(self).frontier() as int,
                    )
                    &&& forall|b: u64|
                        #[trigger] final(self).spec_live().contains_key(b) ==> spares(
                            final(ops)@[k],
                            b as int,
                            final(self).spec_live()[b].size as int,
                        )
                },
            addr % STANDARD_ALIGN == 0,
            final(self).spec_base() == old(self).spec_base(),
            old(self).spec_base() <= addr,
            addr + size <= final(self).frontier() <= final(self).spec_pool_alloc().spec_last_mapped(),
            forall|k: int|
                old(ops)@.len() <= k < final(ops)@.len() ==> final(self).gives_back_dead_pool(
                    #[trigger] final(ops)@[k],
                ),
            forall|a: u64|
                #[trigger] old(self).spec_live().contains_key(a) && a != addr ==> regions_disjoint(
                    a as int,
                    old(self).spec_live()[a].size as int,
                    addr as int,
                    size as int,
                ),
    {
        proof {
            lemma_align_consts_pow2();
        }
        let i = size2bin_index(size);
        let ghost pre = *self;
        let r = self.bins[i].pool.next_addr(size);
        proof {
            Self::lemma_bump(pre, *self, i as int);
            assert forall|j: int| 0 <= j < BINS_NO && j != i implies #[trigger] self.spec_bin_pool(j)
                == pre.spec_bin_pool(j) by {}
        }
        let ghost bumped = *self;
        let addr = match r {
            Some(a) => {
                proof {
                    let p = pre.spec_bin_pool(i as int);
                    assert forall|x: u64| #[trigger] self.spec_live().contains_key(x) && x != a implies regions_disjoint(
                        x as int,
                        self.spec_live()[x].size as int,
                        a as int,
                        size as int,
                    ) by {
                        assert(pre.spec_live().contains_key(x));
                        assert(pre.spec_live()[x] == self.spec_live()[x]);
                        assert(pre.spec_bin_pool(i as int) == p);
                    }
                }
                a
            },
            None => {
                assert(bumped.fresh_pool_ops(i as int, ops@) == pre.fresh_pool_ops(i as int, ops@));
                self.take_fresh_pool(i, ops);
                let ghost fresh = *self;
                proof {
                    lemma_aligned_is_own_align_up(pre.frontier() as int);
                }
                let r2 = self.bins[i].pool.next_addr(size);
                proof {
                    Self::lemma_bump(fresh, *self, i as int);
                    assert forall|j: int| 0 <= j < BINS_NO && j != i implies #[trigger] self.spec_bin_pool(j)
                        == pre.spec_bin_pool(j) by {
                        assert(fresh.spec_bin_pool(j) == bumped.spec_bin_pool(j));
                    }
                    assert forall|x: u64| #[trigger] self.spec_live().contains_key(x) implies regions_disjoint(
                        x as int,
                        self.spec_live()[x].size as int,
                        pre.frontier() as int,
                        size as int,
                    ) by {
                        assert(pre.spec_live().contains_key(x));
                        assert(pre.spec_refs().contains_key(pre.spec_live()[x].pool));
                    }
                }
                r2.unwrap()
            },
        };
        let ghost mid = *self;
        let pool = self.bins[i].pool.start_addr();
        let count = self.pool_refs.get(pool).unwrap();
        self.pool_refs.insert(pool, count + 1);
        let replaced = self.addr2smeta.insert(addr, SmallMeta::new(size, pool));
        let ghost counted = *self;
        match replaced {
            Some(m) => {
                proof {
                    assert(mid.spec_refs().contains_key(m.pool));
                }
                self.release_pool(m.pool, ops);
            },
            None => {},
        }
        proof {
            Self::lemma_record(mid, *self, i as int, addr, size);
            let ii = bin_index_spec(size as int);
            assert(ii == i);
            let p = pre.spec_bin_pool(ii);
            let q = self.spec_bin_pool(ii);
            assert(self.spec_live() == pre.spec_live().insert(addr, SmallMeta { size, pool: q.spec_start() }));
            assert(q.spec_next() == addr + size);
            assert forall|j: int|
                    0 <= j < BINS_NO && j != ii implies #[trigger] self.spec_bin_pool(j) == pre.spec_bin_pool(j) by {
                assert(mid.spec_bin_pool(j) == self.spec_bin_pool(j));
            }
            let a = align_up_spec(p.spec_next() as int, STANDARD_ALIGN as int);
            assert(self.spec_base() == pre.spec_base());
            if a + size <= p.spec_end() {
                assert(addr == a);
                assert(q.spec_start() == p.spec_start());
                assert(self.spec_pool_alloc() == pre.spec_pool_alloc());
            } else {
                assert(addr == pre.frontier());
                assert(self.frontier() == pre.frontier() + POOL_SIZE);
            }
            assert(counted.spec_refs() =~= pre.counted_refs(size));
            assert(mid.spec_live() == pre.spec_live());
            Self::lemma_dead_pools(pre, *self, size, addr, old(ops)@, ops@);
            if let Some(m) = pre.spec_live().get(addr) {
                assert(mid.spec_refs().contains_key(m.pool));
                if pre.counted_refs(size)[m.pool] == 1 {
                    // the dropped allocation was the last holder of its pool
                    assert(!self.spec_refs().contains_key(m.pool));
                    assert forall|b: u64| #[trigger] self.spec_live().contains_key(b) implies regions_disjoint(
                        b as int,
                        self.spec_live()[b].size as int,
                        m.pool as int,
                        POOL_SIZE as int,
                    ) by {
                        let r = self.spec_live()[b].pool;
                        assert(self.spec_refs().contains_key(r));
                        lemma_pool_starts_apart(self.frontier() as int, r as int, m.pool as int);
                    }
                }
            }
        }
        addr
    }

    /// Forgets the live allocation at `addr`, if there is one (an unknown
    /// address is an invalid or double free and changes nothing), and releases
    /// its pool. When that pool is given back, no remaining allocation
    /// overlaps it and no bin carves from it.
    pub fn free(&mut self, addr: u64, ops: &mut Vec<MmanOp>)
        requires
            old(self).wf(),
        ensures
            final(self).wf(),
            old(self).free_post(*final(self), addr),
            final(ops)@ == old(self).free_ops(addr, old(ops)@),
            forall|p: u64| #[trigger]
                final(self).spec_refs().contains_key(p) ==> old(self).spec_refs().contains_key(p)
                    && final(self).spec_refs()[p] <= old(self).spec_refs()[p],
            forall|k: int|
                old(ops)@.len() <= k < final(ops)@.len() ==> {
                    &&& unmaps_within(
                        #[trigger] final(ops)@[k],
                        old(self).spec_base() as int,
                        final(self).frontier() as int,
                    )
                    &&& forall|b: u64|
                        #[trigger] final(self).spec_live().contains_key(b) ==> spares(
                            final(ops)@[k],
                            b as int,
                            final(self).spec_live()[b].size as int,
                        )
                },
            match old(self).spec_live().get(addr) {
                None => final(ops)@ == old(ops)@,
                Some(m) => if old(self).spec_refs()[m.pool] == 1 {
                    &&& final(ops)@ == old(ops)@.push(
                        MmanOp::Munmap { addr: m.pool, size: POOL_SIZE },
                    )
                    &&& !final(self).bin_holds(m.pool)
                    &&& forall|a: u64|
                        #[trigger] final(self).spec_live().contains_key(a) ==> regions_disjoint(
                            a as int,
                            final(self).spec_live()[a].size as int,
                            m.pool as int,
                            POOL_SIZE as int,
                        )
                } else {
                    final(ops)@ == old(ops)@
                },
            },
    {
        let ghost pre = *self;
        match self.addr2smeta.remove(addr) {
            None => {
                // an invalid or double free
                assert(self.spec_live() =~= pre.spec_live().remove(addr));
                assert(self.spec_live() =~= pre.spec_live());
                proof {
                    Self::lemma_wf_same_view(pre, *self);
                }
            },
            Some(smeta) => {
                let ghost mid = *self;
                assert(mid.spec_live() == pre.spec_live().remove(addr));
                self.release_pool(smeta.pool, ops);
                proof {
                    let pool = smeta.pool;
                    assert forall|p: u64| #[trigger]
                        pool_live_count(self.spec_live(), p) == pool_live_count(pre.spec_live(), p)
                            - (if p == pool {
                            1int
                        } else {
                            0int
                        }) by {
                        lemma_count_remove(pre.spec_live(), addr, p);
                    }
                    lemma_count_remove(pre.spec_live(), addr, pool);
                    assert forall|p: u64| #[trigger] self.bin_holds(p) == pre.bin_holds(p) by {
                        if self.bin_holds(p) {
                            let i = choose|i: int|
                                0 <= i < BINS_NO && #[trigger] self.spec_bin_pool(i).spec_start()
                                    == p;
                            assert(pre.spec_bin_pool(i).spec_start() == p);
                        }
                        if pre.bin_holds(p) {
                            let i = choose|i: int|
                                0 <= i < BINS_NO && #[trigger] pre.spec_bin_pool(i).spec_start()
                                    == p;
                            assert(self.spec_bin_pool(i).spec_start() == p);
                        }
                    }
                    if pre.spec_refs()[pool] == 1 {
                        assert forall|a: u64| #[trigger] self.spec_live().contains_key(a) implies self.spec_live()[a].pool != pool by {
                            lemma_count_zero(self.spec_live(), pool, a);
                        }
                        assert forall|a: u64| #[trigger]
                            self.spec_live().contains_key(a) implies regions_disjoint(
                            a as int,
                            self.spec_live()[a].size as int,
                            pool as int,
                            POOL_SIZE as int,
                        ) by {
                            let q = self.spec_live()[a].pool;
                            assert(pre.spec_live().contains_key(a));
                            lemma_pool_starts_apart(self.frontier() as int, pool as int, q as int);
                        }
                    }
                    if pre.spec_refs()[pool] == 1 {
                        assert(!pre.bin_holds(pool));
                        assert forall|i: int| 0 <= i < BINS_NO implies #[trigger] self.spec_bin_pool(
                            i,
                        ).spec_start() != pool by {
                            if self.spec_bin_pool(i).spec_start() == pool {
                                assert(pre.spec_bin_pool(i).spec_start() == pool);
                                assert(pre.bin_holds(pool));
                            }
                        }
                    }
                    assert(self.refs_wf());
                    assert forall|a: u64| #[trigger] self.spec_live().contains_key(a) implies {
                        let m = self.spec_live()[a];
                        &&& self.spec_refs().contains_key(m.pool)
                        &&& m.pool <= a
                        &&& a + m.size <= m.pool + POOL_SIZE
                    } by {
                        assert(pre.spec_live().contains_key(a));
                        assert(pre.spec_live()[a] == self.spec_live()[a]);
                    }
                    assert forall|a: u64, i: int|
                        self.spec_live().contains_key(a) && 0 <= i < BINS_NO implies {
                        let m = #[trigger] self.spec_live()[a];
                        let p = #[trigger] self.spec_bin_pool(i);
                        a + m.size <= p.spec_next() || a >= p.spec_end()
                    } by {
                        assert(pre.spec_live().contains_key(a));
                        assert(pre.spec_live()[a] == self.spec_live()[a]);
                        assert(pre.spec_bin_pool(i) == self.spec_bin_pool(i));
                    }
                    assert forall|a: u64, b: u64|
                        self.spec_live().contains_key(a) && self.spec_live().contains_key(b) && a
                            != b implies regions_disjoint(
                        a as int,
                        #[trigger] self.spec_live()[a].size as int,
                        b as int,
                        #[trigger] self.spec_live()[b].size as int,
                    ) by {
                        assert(pre.spec_live()[a] == self.spec_live()[a]);
                        assert(pre.spec_live()[b] == self.spec_live()[b]);
                    }
                    assert(self.live_wf());
                    assert forall|i: int| 0 <= i < BINS_NO implies {
                        let p = #[trigger] self.spec_bin_pool(i);
                        &&& self.is_pool_start(p.spec_start())
                        &&& p.spec_end() == p.spec_start() + POOL_SIZE
                        &&& p.spec_start() <= p.spec_next()
                        &&& self.spec_refs().contains_key(p.spec_start())
                    } by {
                        assert(pre.spec_bin_pool(i) == self.spec_bin_pool(i));
                    }
                    assert forall|i: int, j: int|
                        0 <= i < BINS_NO && 0 <= j < BINS_NO && i != j implies #[trigger] self.spec_bin_pool(
                        i,
                    ).spec_start() != #[trigger] self.spec_bin_pool(j).spec_start() by {
                        assert(pre.spec_bin_pool(i) == self.spec_bin_pool(i));
                        assert(pre.spec_bin_pool(j) == self.spec_bin_pool(j));
                    }
                }
            },
        }
    }

    /// Start of the next fresh pool.
    pub fn frontier_addr(&self) -> (r: u64)
        ensures
            r == self.frontier(),
    {
        self.pool_alloc.next_pool_addr()
    }

    /// Whether `next_addr(size)` can run without an arithmetic overflow, and
    /// whether it takes a fresh pool.
    pub fn check_alloc(&self, size: u64) -> (r: (bool, bool))
        requires
            self.wf(),
        ensures
            r.0 == self.can_alloc(size),
            r.0 ==> (r.1 == ({
                let p = self.spec_bin_pool(bin_index_spec(size as int));
                align_up_spec(p.spec_next() as int, STANDARD_ALIGN as int) + size > p.spec_end()
            })),
    {
        proof {
            lemma_align_consts_pow2();
        }
        let i = size2bin_index(size);
        let next = self.bins[i].pool.next_free();
        let end = self.bins[i].pool.end_addr();
        if next > u64::MAX - STANDARD_ALIGN {
            return (false, false);
        }
        let a = align_up(next, STANDARD_ALIGN);
        if a > u64::MAX - size {
            return (false, false);
        }
        if a + size > end {
            (self.pool_alloc.check_take_pool(), true)
        } else {
            let start = self.bins[i].pool.start_addr();
            match self.pool_refs.get(start) {
                Some(count) => (count < u64::MAX, false),
                None => (false, false),
            }
        }
    }

    /// The requested size of the live allocation at `addr`, or 0 when there is
    /// none.
    pub fn usable_size(&self, addr: u64) -> (r: u64)
        ensures
            r == self.usable_size_spec(addr),
    {
        match self.addr2smeta.get(addr) {
            None => 0,
            Some(smeta) => smeta.size,
        }
    }
}

} // verus!
