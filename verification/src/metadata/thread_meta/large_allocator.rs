pub mod large_meta;

use vstd::prelude::*;

use crate::maps::{LargeMetaMap, U64Map, large_meta_map_contents, u64_map_contents};
use crate::metadata::thread_meta::large_allocator::large_meta::LargeMeta;
use crate::utils::consts::{PAGE_SIZE, POOL_SIZE, RESV_ADDRS_NO, STANDARD_ALIGN, TANK_SIZE};
use crate::utils::mman_ops::MmanOp;
use crate::utils::{
    align_down, align_down_spec, align_up, align_up_spec, lemma_align_consts_pow2, regions_disjoint,
    spares, unmaps_within,
};

verus! {

/// A page, by its start address.
#[derive(Clone, Copy, Debug, PartialEq, Eq)]
pub struct Page(pub u64);

/// Page that `addr` lies in.
pub open spec fn page_of(addr: int) -> int {
    align_down_spec(addr, PAGE_SIZE as int)
}

pub proof fn lemma_page_facts(x: int)
    requires
        x >= 0,
    ensures
        page_of(x) <= x < page_of(x) + PAGE_SIZE,
        page_of(x) % (PAGE_SIZE as int) == 0,
        page_of(x) >= 0,
{
    assert((x / 4096) * 4096 <= x < (x / 4096) * 4096 + 4096) by (nonlinear_arith)
        requires
            x >= 0,
    ;
    assert(((x / 4096) * 4096) % 4096 == 0) by (nonlinear_arith);
    assert((x / 4096) * 4096 >= 0) by (nonlinear_arith)
        requires
            x >= 0,
    ;
}

/// Page starts are a whole number of pages apart.
proof fn lemma_pages_apart(p: int, q: int)
    by (nonlinear_arith)
    requires
        p % 4096 == 0,
        q % 4096 == 0,
        p < q,
    ensures
        p + 4096 <= q,
{
}

proof fn lemma_page_mono(x: int, y: int)
    requires
        0 <= x <= y,
    ensures
        page_of(x) <= page_of(y),
        x + PAGE_SIZE <= y ==> page_of(x) + PAGE_SIZE <= page_of(y),
{
    lemma_page_facts(x);
    lemma_page_facts(y);
    if page_of(x) > page_of(y) {
        lemma_pages_apart(page_of(y), page_of(x));
    }
    if x + PAGE_SIZE <= y && page_of(x) + PAGE_SIZE > page_of(y) {
        if page_of(x) < page_of(y) {
            lemma_pages_apart(page_of(x), page_of(y));
        }
    }
}

/// Serves requests of at least a pool by bumping a pointer through a region
/// that it maps a tank (or more) at a time. Each allocation shares its first
/// page with the region before it and its last page with the region after it;
/// `page_refs` counts, for each such boundary page, how many of the
/// allocation ending there, the allocation starting there, and the bump
/// pointer still use it. Freeing gives back the allocation's pages, the
/// boundary pages included once nothing else uses them.
pub struct LargeAllocator {
    last_mapped_addr: u64,  // open endpoint
    next_addr: u64,
    current_page: Page,
    addr2lmeta: LargeMetaMap,
    page_refs: U64Map,
    base: Ghost<u64>,
}

impl LargeAllocator {
    /// The live allocations, by address.
    pub closed spec fn spec_live(&self) -> Map<u64, LargeMeta> {
        large_meta_map_contents(self.addr2lmeta)
    }

    /// The holders of each boundary page in use, by the page's start.
    pub closed spec fn spec_refs(&self) -> Map<u64, u64> {
        u64_map_contents(self.page_refs)
    }

    /// End of the region mapped so far.
    pub closed spec fn spec_last_mapped(&self) -> u64 {
        self.last_mapped_addr
    }

    /// The bump pointer.
    pub closed spec fn spec_next(&self) -> u64 {
        self.next_addr
    }

    /// Page of the bump pointer, which the next allocation starts in.
    pub closed spec fn spec_current_page(&self) -> u64 {
        self.current_page.0
    }

    /// Where the allocator started.
    pub closed spec fn spec_base(&self) -> u64 {
        self.base@
    }

    /// Some live allocation starts in page `p`.
    pub open spec fn first_holder(&self, p: u64) -> bool {
        exists|a: u64| #[trigger]
            self.spec_live().contains_key(a) && self.spec_live()[a].first_page.0 == p
    }

    /// Some live allocation ends in page `p`.
    pub open spec fn last_holder(&self, p: u64) -> bool {
        exists|a: u64| #[trigger]
            self.spec_live().contains_key(a) && self.spec_live()[a].last_page.0 == p
    }

    /// How many of the bump pointer, the allocation starting in `p` and the
    /// allocation ending in `p` use page `p`.
    pub open spec fn page_holders(&self, p: u64) -> int {
        (if p == self.spec_current_page() {
            1int
        } else {
            0int
        }) + (if self.first_holder(p) {
            1int
        } else {
            0int
        }) + (if self.last_holder(p) {
            1int
        } else {
            0int
        })
    }

    pub open spec fn live_wf(&self) -> bool {
        &&& self.spec_live().dom().finite()
        &&& forall|a: u64|
            #[trigger] self.spec_live().contains_key(a) ==> {
                let m = self.spec_live()[a];
                &&& self.spec_base() <= m.first_page.0 <= a
                &&& m.first_page.0 % PAGE_SIZE == 0
                &&& m.size >= 2 * PAGE_SIZE
                &&& a + m.size <= self.spec_next()
                &&& m.last_page.0 == page_of(a + m.size)
                &&& m.first_page.0 + 2 * PAGE_SIZE <= m.last_page.0
            }
        &&& forall|a: u64, b: u64|
            #![trigger self.spec_live()[a], self.spec_live()[b]]
            self.spec_live().contains_key(a) && self.spec_live().contains_key(b) && a < b ==> {
                &&& a + self.spec_live()[a].size <= b
                &&& self.spec_live()[a].last_page.0 <= self.spec_live()[b].first_page.0
            }
    }

    pub open spec fn refs_wf(&self) -> bool {
        &&& forall|p: u64| #[trigger]
            self.spec_refs().contains_key(p) == (self.page_holders(p) > 0)
        &&& forall|p: u64| #[trigger]
            self.spec_refs().contains_key(p) ==> self.spec_refs()[p] == self.page_holders(p)
    }

    /// The allocator's invariant.
    pub open spec fn wf(&self) -> bool {
        &&& self.spec_base() % PAGE_SIZE == 0
        &&& self.spec_base() <= self.spec_current_page()
        &&& self.spec_current_page() == page_of(self.spec_next() as int)
        &&& self.spec_next() <= self.spec_last_mapped()
        &&& self.live_wf()
        &&& self.refs_wf()
    }

    /// Starts at the page-aligned `first_addr` and maps a tank there.
    pub fn new_in(first_addr: u64, ops: &mut Vec<MmanOp>) -> (la: LargeAllocator)
        requires
            first_addr % PAGE_SIZE == 0,
            first_addr + TANK_SIZE <= u64::MAX,
        ensures
            la.wf(),
            la.spec_live() == Map::<u64, LargeMeta>::empty(),
            la.spec_base() == first_addr,
            la.spec_next() == first_addr,
            la.spec_last_mapped() == first_addr + TANK_SIZE,
            final(ops)@ == old(ops)@.push(MmanOp::Mmap { addr: first_addr, size: TANK_SIZE }),
    {
        let mut page_refs = U64Map::with_capacity(RESV_ADDRS_NO);
        page_refs.insert(first_addr, 1);
        let mut large_alloc = LargeAllocator {
            last_mapped_addr: first_addr,
            next_addr: first_addr,
            current_page: Page(first_addr),
            addr2lmeta: LargeMetaMap::with_capacity(RESV_ADDRS_NO),
            page_refs,
            base: Ghost(first_addr),
        };
        large_alloc.expand_mapped_region(TANK_SIZE, ops);
        proof {
            assert(large_alloc.spec_live().dom() =~= Set::<u64>::empty());
            assert(page_of(first_addr as int) == first_addr) by (nonlinear_arith)
                requires
                    first_addr % 4096 == 0,
                    page_of(first_addr as int) == (first_addr as int / 4096) * 4096,
            ;
        }
        large_alloc
    }

    /// The requested size of the live allocation at `addr`, or 0 when there is
    /// none.
    pub fn usable_size(&self, addr: u64) -> (r: u64)
        ensures
            r == match self.spec_live().get(addr) {
                Some(m) => m.size,
                None => 0,
            },
    {
        match self.addr2lmeta.get(addr) {
            None => 0,
            Some(lmeta) => lmeta.size,
        }
    }

    /// Whether `next_addr(size)` can run without an arithmetic overflow.
    pub open spec fn can_alloc(&self, size: u64) -> bool {
        let a = align_up_spec(self.spec_next() as int, STANDARD_ALIGN as int);
        let n = a + size;
        &&& self.spec_next() + STANDARD_ALIGN <= u64::MAX
        &&& n <= u64::MAX
        &&& n > self.spec_last_mapped() ==> if n - self.spec_last_mapped() >= TANK_SIZE {
            n + TANK_SIZE <= u64::MAX
        } else {
            self.spec_last_mapped() + TANK_SIZE <= u64::MAX
        }
    }

    /// The address that `next_addr(size)` hands out.
    pub open spec fn next_addr_spec(&self, size: u64) -> int {
        align_up_spec(self.spec_next() as int, STANDARD_ALIGN as int)
    }

    /// The operations that `next_addr(size)` issues, after `ops`.
    pub open spec fn next_addr_ops(&self, size: u64, ops: Seq<MmanOp>) -> Seq<MmanOp> {
        let n = self.next_addr_spec(size) + size;
        let last = self.spec_last_mapped();
        if n > last {
            let expand = if n - last >= TANK_SIZE {
                n - last + TANK_SIZE
            } else {
                TANK_SIZE as int
            };
            ops.push(MmanOp::Mmap { addr: last, size: expand as u64 })
        } else {
            ops
        }
    }

    /// The bump pointer.
    pub fn next_free(&self) -> (r: u64)
        ensures
            r == self.spec_next(),
    {
        self.next_addr
    }

    /// Whether a large allocation lives at `addr`.
    pub fn contains(&self, addr: u64) -> (r: bool)
        ensures
            r == self.spec_live().contains_key(addr),
    {
        self.addr2lmeta.get(addr).is_some()
    }

    /// Whether `next_addr(size)` can run without an arithmetic overflow.
    pub fn check_alloc(&self, size: u64) -> (r: bool)
        ensures
            r == self.can_alloc(size),
    {
        proof {
            lemma_align_consts_pow2();
        }
        if self.next_addr > u64::MAX - STANDARD_ALIGN {
            return false;
        }
        let a = align_up(self.next_addr, STANDARD_ALIGN);
        if a > u64::MAX - size {
            return false;
        }
        let n = a + size;
        if n > self.last_mapped_addr {
            if n - self.last_mapped_addr >= TANK_SIZE {
                n <= u64::MAX - TANK_SIZE
            } else {
                self.last_mapped_addr <= u64::MAX - TANK_SIZE
            }
        } else {
            true
        }
    }

    /// How `next_addr(size)` changes the allocator into `post` when it hands
    /// out `addr`: the bump pointer moves past the new allocation, which is
    /// recorded with its first and last page, and the mapped region grows
    /// when the allocation reaches past it. (The page counts follow from the
    /// invariant.)
    pub open spec fn next_addr_post(&self, post: LargeAllocator, size: u64, addr: u64) -> bool {
        let n = addr + size;
        let last = self.spec_last_mapped();
        &&& addr == self.next_addr_spec(size)
        &&& post.spec_next() == n
        &&& post.spec_base() == self.spec_base()
        &&& post.spec_live() == self.spec_live().insert(
            addr,
            LargeMeta {
                size,
                first_page: Page(self.spec_current_page()),
                last_page: Page(page_of(n) as u64),
            },
        )
        &&& post.spec_last_mapped() == if n > last {
            last + if n - last >= TANK_SIZE {
                n - last + TANK_SIZE
            } else {
                TANK_SIZE as int
            }
        } else {
            last as int
        }
    }

    /// How `free(addr)` changes the allocator into `post`: the allocation is
    /// forgotten; the bump pointer and the mapped region stay.
    pub open spec fn free_post(&self, post: LargeAllocator, addr: u64) -> bool {
        &&& post.spec_live() == self.spec_live().remove(addr)
        &&& post.spec_next() == self.spec_next()
        &&& post.spec_last_mapped() == self.spec_last_mapped()
        &&& post.spec_current_page() == self.spec_current_page()
        &&& post.spec_base() == self.spec_base()
    }

    /// Hands out the next `STANDARD_ALIGN`-aligned address with `size` bytes
    /// behind it, first extending the mapped region when they reach past it:
    /// by a tank, or by what is missing and a tank when that is a tank or
    /// more.
    pub fn next_addr(&mut self, size: u64, ops: &mut Vec<MmanOp>) -> (addr: u64)
        requires
            old(self).wf(),
            size >= POOL_SIZE,
            old(self).can_alloc(size),
        ensures
            final(self).wf(),
            old(self).next_addr_post(*final(self), size, addr),
            final(ops)@ == old(self).next_addr_ops(size, old(ops)@),
            forall|k: int|
                old(ops)@.len() <= k < final(ops)@.len() ==> {
                    &&& unmaps_within(
                        #[trigger] final(ops)@[k],
                        old(self).spec_base() as int,
                        final(self).spec_next() as int,
                    )
                    &&& forall|b: u64|
                        #[trigger] final(self).spec_live().contains_key(b) ==> spares(
                            final(ops)@[k],
                            b as int,
                            final(self).spec_live()[b].size as int,
                        )
                },
            addr % STANDARD_ALIGN == 0,
            addr + size <= final(self).spec_last_mapped(),
            forall|b: u64| #[trigger]
                old(self).spec_live().contains_key(b) ==> b + old(self).spec_live()[b].size <= addr,
    {
        proof {
            lemma_align_consts_pow2();
        }
        let ghost pre = *self;
        let addr = align_up(self.next_addr, STANDARD_ALIGN);
        self.next_addr = addr + size;
        if self.next_addr > self.last_mapped_addr {
            let size_unmapped = self.next_addr - self.last_mapped_addr;
            let expand_size = if size_unmapped >= TANK_SIZE {
                size_unmapped + TANK_SIZE
            } else {
                TANK_SIZE
            };
            self.expand_mapped_region(expand_size, ops);
        }
        let next_page = Page(align_down(self.next_addr, PAGE_SIZE));
        // The new allocation ends in the next page and the bump pointer is in
        // it; the current page, which the new allocation starts in, stops
        // being the bump pointer's, so its count stays.
        self.page_refs.insert(next_page.0, 2);
        self.addr2lmeta.insert(addr, LargeMeta::new_in(size, self.current_page, next_page));
        let ghost cur = self.current_page.0;
        self.current_page = next_page;
        proof {
            let np = next_page.0;
            let n0 = pre.spec_next();
            lemma_page_facts(n0 as int);
            lemma_page_facts((addr + size) as int);
            lemma_page_mono(n0 as int, (addr + size) as int);
            lemma_page_mono(n0 as int, n0 + PAGE_SIZE);
            lemma_page_mono(n0 + PAGE_SIZE, (addr + size) as int);
            lemma_page_facts(n0 + PAGE_SIZE);
            assert(cur == pre.spec_current_page());
            assert(cur + PAGE_SIZE <= np);
            let m_new = LargeMeta { size, first_page: Page(cur), last_page: next_page };
            assert(self.spec_live() == pre.spec_live().insert(addr, m_new));
            // every earlier allocation lies before the new one
            assert forall|b: u64| #[trigger] pre.spec_live().contains_key(b) implies {
                &&& b + pre.spec_live()[b].size <= addr
                &&& b < addr
                &&& pre.spec_live()[b].first_page.0 < cur
                &&& pre.spec_live()[b].last_page.0 <= cur
            } by {
                let m = pre.spec_live()[b];
                lemma_page_mono((b + m.size) as int, n0 as int);
            }
            assert(!pre.spec_live().contains_key(addr));
            assert forall|b: u64| #[trigger] self.spec_live().contains_key(b) implies {
                let m = self.spec_live()[b];
                &&& self.spec_base() <= m.first_page.0 <= b
                &&& m.first_page.0 % PAGE_SIZE == 0
                &&& m.size >= 2 * PAGE_SIZE
                &&& b + m.size <= self.spec_next()
                &&& m.last_page.0 == page_of(b + m.size)
                &&& m.first_page.0 + 2 * PAGE_SIZE <= m.last_page.0
            } by {}
            assert forall|a: u64, b: u64|
                self.spec_live().contains_key(a) && self.spec_live().contains_key(b) && a < b implies {
                &&& a + #[trigger] self.spec_live()[a].size <= b
                &&& self.spec_live()[a].last_page.0 <= #[trigger] self.spec_live()[b].first_page.0
            } by {
                if b == addr {
                    assert(pre.spec_live().contains_key(a));
                } else if a == addr {
                    assert(pre.spec_live().contains_key(b));
                    assert(false);
                }
            }
            assert(self.live_wf());
            assert forall|p: u64| #[trigger] self.first_holder(p) == (pre.first_holder(p) || p == cur) by {
                if self.first_holder(p) {
                    let a = choose|a: u64| #[trigger]
                        self.spec_live().contains_key(a) && self.spec_live()[a].first_page.0 == p;
                    if a != addr {
                        assert(pre.spec_live().contains_key(a));
                    }
                }
                if pre.first_holder(p) {
                    let a = choose|a: u64| #[trigger]
                        pre.spec_live().contains_key(a) && pre.spec_live()[a].first_page.0 == p;
                    assert(self.spec_live().contains_key(a));
                }
                if p == cur {
                    assert(self.spec_live().contains_key(addr));
                }
            }
            assert forall|p: u64| #[trigger] self.last_holder(p) == (pre.last_holder(p) || p == np) by {
                if self.last_holder(p) {
                    let a = choose|a: u64| #[trigger]
                        self.spec_live().contains_key(a) && self.spec_live()[a].last_page.0 == p;
                    if a != addr {
                        assert(pre.spec_live().contains_key(a));
                    }
                }
                if pre.last_holder(p) {
                    let a = choose|a: u64| #[trigger]
                        pre.spec_live().contains_key(a) && pre.spec_live()[a].last_page.0 == p;
                    assert(self.spec_live().contains_key(a));
                }
                if p == np {
                    assert(self.spec_live().contains_key(addr));
                }
            }
            assert(!pre.first_holder(cur)) by {
                if pre.first_holder(cur) {
                    let a = choose|a: u64| #[trigger]
                        pre.spec_live().contains_key(a) && pre.spec_live()[a].first_page.0 == cur;
                }
            }
            assert(!pre.first_holder(np)) by {
                if pre.first_holder(np) {
                    let a = choose|a: u64| #[trigger]
                        pre.spec_live().contains_key(a) && pre.spec_live()[a].first_page.0 == np;
                }
            }
            assert(!pre.last_holder(np)) by {
                if pre.last_holder(np) {
                    let a = choose|a: u64| #[trigger]
                        pre.spec_live().contains_key(a) && pre.spec_live()[a].last_page.0 == np;
                }
            }
            assert(self.page_holders(np) == 2);
            assert(pre.page_holders(np) == 0);
            assert(self.page_holders(cur) == pre.page_holders(cur));
            assert forall|p: u64| #[trigger] self.spec_refs().contains_key(p) == (self.page_holders(p) > 0) by {
                assert(pre.spec_refs().contains_key(p) == (pre.page_holders(p) > 0));
                if p != np && p != cur {
                    assert(self.page_holders(p) == pre.page_holders(p));
                }
            }
            assert forall|p: u64| #[trigger] self.spec_refs().contains_key(p) implies self.spec_refs()[p] == self.page_holders(p) by {
                assert(pre.spec_refs().contains_key(p) == (pre.page_holders(p) > 0));
                if p != np && p != cur {
                    assert(self.page_holders(p) == pre.page_holders(p));
                }
            }
            assert(self.refs_wf());
        }
        addr
    }

    /// The region that freeing the live allocation at `addr` gives back: its
    /// pages, less its first page while the region before it or the bump
    /// pointer still uses that page, and less its last page while the region
    /// after it or the bump pointer still uses that one.
    pub open spec fn freed_range(&self, addr: u64) -> (int, int) {
        let m = self.spec_live()[addr];
        let start = if self.spec_refs()[m.first_page.0] == 1 {
            m.first_page.0 as int
        } else {
            m.first_page.0 + PAGE_SIZE
        };
        let end = if self.spec_refs()[m.last_page.0] == 1 {
            m.last_page.0 + PAGE_SIZE
        } else {
            m.last_page.0 as int
        };
        (start, end)
    }

    /// Freeing gives back whole pages: the region starts and ends on page
    /// boundaries, lies within the allocation's pages, holds every page of
    /// the allocation between its first and its last, and holds the first
    /// (the last) page too when nothing else holds it.
    pub proof fn lemma_freed_range_whole_pages(&self, addr: u64)
        requires
            self.wf(),
            self.spec_live().contains_key(addr),
        ensures
            ({
                let (start, end) = self.freed_range(addr);
                let m = self.spec_live()[addr];
                &&& start % (PAGE_SIZE as int) == 0
                &&& end % (PAGE_SIZE as int) == 0
                &&& start < end
                &&& m.first_page.0 <= start <= m.first_page.0 + PAGE_SIZE
                &&& m.last_page.0 <= end <= m.last_page.0 + PAGE_SIZE
                &&& self.spec_refs()[m.first_page.0] == 1 ==> start == m.first_page.0
                &&& self.spec_refs()[m.last_page.0] == 1 ==> end == m.last_page.0 + PAGE_SIZE
                &&& m.first_page.0 <= addr
                &&& addr + m.size <= m.last_page.0 + PAGE_SIZE
            }),
    {
        let m = self.spec_live()[addr];
        lemma_page_facts((addr + m.size) as int);
        let f = m.first_page.0 as int;
        assert((f + 4096) % 4096 == 0) by (nonlinear_arith)
            requires
                f % 4096 == 0,
        ;
        let l = m.last_page.0 as int;
        assert((l + 4096) % 4096 == 0) by (nonlinear_arith)
            requires
                l % 4096 == 0,
        ;
    }

    /// The operations that `free(addr)` issues, after `ops`.
    pub open spec fn free_ops(&self, addr: u64, ops: Seq<MmanOp>) -> Seq<MmanOp> {
        let (start, end) = self.freed_range(addr);
        ops.push(MmanOp::Munmap { addr: start as u64, size: (end - start) as u64 })
    }

    /// Drops one holder of page `p`.
    fn release_page(&mut self, p: u64)
        requires
            old(self).spec_refs().contains_key(p),
        ensures
            final(self).next_addr == old(self).next_addr,
            final(self).last_mapped_addr == old(self).last_mapped_addr,
            final(self).current_page == old(self).current_page,
            final(self).addr2lmeta == old(self).addr2lmeta,
            final(self).base == old(self).base,
            if old(self).spec_refs()[p] <= 1 {
                final(self).spec_refs() == old(self).spec_refs().remove(p)
            } else {
                final(self).spec_refs() == old(self).spec_refs().insert(
                    p,
                    (old(self).spec_refs()[p] - 1) as u64,
                )
            },
    {
        if let Some(count) = self.page_refs.get(p) {
            if count <= 1 {
                self.page_refs.remove(p);
            } else {
                self.page_refs.insert(p, count - 1);
            }
        }
    }

    /// Gives back the pages of the live allocation at `addr` that nothing else
    /// uses and forgets the allocation. What is given back lies below the bump
    /// pointer's page and overlaps no other live allocation.
    pub fn free(&mut self, addr: u64, ops: &mut Vec<MmanOp>)
        requires
            old(self).wf(),
            old(self).spec_live().contains_key(addr),
        ensures
            final(self).wf(),
            old(self).free_post(*final(self), addr),
            final(ops)@ == old(self).free_ops(addr, old(ops)@),
            forall|k: int|
                old(ops)@.len() <= k < final(ops)@.len() ==> {
                    &&& unmaps_within(
                        #[trigger] final(ops)@[k],
                        old(self).spec_base() as int,
                        final(self).spec_next() as int,
                    )
                    &&& forall|b: u64|
                        #[trigger] final(self).spec_live().contains_key(b) ==> spares(
                            final(ops)@[k],
                            b as int,
                            final(self).spec_live()[b].size as int,
                        )
                },
            ({
                let (start, end) = old(self).freed_range(addr);
                let m = old(self).spec_live()[addr];
                &&& start < end
                &&& start % (PAGE_SIZE as int) == 0
                &&& (end - start) % (PAGE_SIZE as int) == 0
                &&& old(self).spec_refs()[m.first_page.0] == 1 ==> start == m.first_page.0
                &&& final(ops)@ == old(ops)@.push(
                    MmanOp::Munmap { addr: start as u64, size: (end - start) as u64 },
                )
                &&& old(self).spec_base() <= start <= m.first_page.0 + PAGE_SIZE
                &&& m.last_page.0 <= end <= old(self).spec_current_page()
                &&& forall|b: u64| #[trigger]
                    final(self).spec_live().contains_key(b) ==> regions_disjoint(
                        b as int,
                        final(self).spec_live()[b].size as int,
                        start,
                        end - start,
                    )
            }),
    {
        let ghost pre = *self;
        proof {
            pre.lemma_freed_range_whole_pages(addr);
            let (st, en) = pre.freed_range(addr);
            assert((en - st) % 4096 == 0) by (nonlinear_arith)
                requires
                    st % 4096 == 0,
                    en % 4096 == 0,
            ;
        }
        let lmeta = self.addr2lmeta.get(addr).unwrap();
        let first = lmeta.first_page.0;
        let last = lmeta.last_page.0;
        proof {
            let cur = pre.spec_current_page();
            lemma_page_facts((addr + lmeta.size) as int);
            lemma_page_mono((addr + lmeta.size) as int, pre.spec_next() as int);
            assert(pre.first_holder(first));
            assert(pre.last_holder(last));
            assert(pre.spec_refs().contains_key(first) == (pre.page_holders(first) > 0));
            assert(pre.spec_refs().contains_key(last) == (pre.page_holders(last) > 0));
            if last != cur {
                lemma_pages_apart(last as int, cur as int);
            }
        }
        let first_count = self.page_refs.get(first).unwrap();
        let last_count = self.page_refs.get(last).unwrap();
        let first_page = if first_count == 1 {
            first
        } else {
            first + PAGE_SIZE
        };
        let last_page = if last_count == 1 {
            last + PAGE_SIZE
        } else {
            last
        };
        let size = last_page - first_page;
        ops.push(MmanOp::Munmap { addr: first_page, size });
        self.addr2lmeta.remove(addr);
        self.release_page(first);
        self.release_page(last);
        proof {
            let cur = pre.spec_current_page();
            // no other live allocation starts or ends where this one does
            assert forall|b: u64| #[trigger] pre.spec_live().contains_key(b) && b != addr implies {
                &&& pre.spec_live()[b].first_page.0 != first
                &&& pre.spec_live()[b].last_page.0 != last
            } by {
                if b < addr {
                    assert(pre.spec_live()[b].last_page.0 <= first);
                } else {
                    assert(last <= pre.spec_live()[b].first_page.0);
                }
            }
            assert forall|p: u64| #[trigger] self.first_holder(p) == (pre.first_holder(p) && p != first) by {
                if self.first_holder(p) {
                    let b = choose|b: u64| #[trigger]
                        self.spec_live().contains_key(b) && self.spec_live()[b].first_page.0 == p;
                    assert(pre.spec_live().contains_key(b));
                }
                if pre.first_holder(p) && p != first {
                    let b = choose|b: u64| #[trigger]
                        pre.spec_live().contains_key(b) && pre.spec_live()[b].first_page.0 == p;
                    assert(self.spec_live().contains_key(b));
                }
            }
            assert forall|p: u64| #[trigger] self.last_holder(p) == (pre.last_holder(p) && p != last) by {
                if self.last_holder(p) {
                    let b = choose|b: u64| #[trigger]
                        self.spec_live().contains_key(b) && self.spec_live()[b].last_page.0 == p;
                    assert(pre.spec_live().contains_key(b));
                }
                if pre.last_holder(p) && p != last {
                    let b = choose|b: u64| #[trigger]
                        pre.spec_live().contains_key(b) && pre.spec_live()[b].last_page.0 == p;
                    assert(self.spec_live().contains_key(b));
                }
            }
            assert forall|p: u64| #[trigger] self.spec_refs().contains_key(p) == (self.page_holders(p) > 0) by {
                assert(pre.spec_refs().contains_key(p) == (pre.page_holders(p) > 0));
            }
            assert forall|p: u64| #[trigger] self.spec_refs().contains_key(p) implies self.spec_refs()[p] == self.page_holders(p) by {
                assert(pre.spec_refs().contains_key(p) == (pre.page_holders(p) > 0));
            }
            assert(self.refs_wf());
            assert forall|b: u64| #[trigger] self.spec_live().contains_key(b) implies {
                let m = self.spec_live()[b];
                &&& self.spec_base() <= m.first_page.0 <= b
                &&& m.first_page.0 % PAGE_SIZE == 0
                &&& m.size >= 2 * PAGE_SIZE
                &&& b + m.size <= self.spec_next()
                &&& m.last_page.0 == page_of(b + m.size)
                &&& m.first_page.0 + 2 * PAGE_SIZE <= m.last_page.0
            } by {
                assert(pre.spec_live().contains_key(b));
            }
            assert forall|a: u64, b: u64|
                self.spec_live().contains_key(a) && self.spec_live().contains_key(b) && a < b implies {
                &&& a + #[trigger] self.spec_live()[a].size <= b
                &&& self.spec_live()[a].last_page.0 <= #[trigger] self.spec_live()[b].first_page.0
            } by {
                assert(pre.spec_live().contains_key(a));
                assert(pre.spec_live().contains_key(b));
            }
            assert(self.live_wf());
            // what is given back overlaps no remaining allocation
            assert forall|b: u64| #[trigger] self.spec_live().contains_key(b) implies regions_disjoint(
                b as int,
                self.spec_live()[b].size as int,
                first_page as int,
                size as int,
            ) by {
                let mb = pre.spec_live()[b];
                assert(pre.spec_live().contains_key(b));
                lemma_page_facts((b + mb.size) as int);
                if b < addr {
                    if mb.last_page.0 == first {
                        assert(pre.last_holder(first));
                    } else {
                        lemma_pages_apart(mb.last_page.0 as int, first as int);
                    }
                } else {
                    if mb.first_page.0 == last {
                        assert(pre.first_holder(last));
                    } else {
                        lemma_pages_apart(last as int, mb.first_page.0 as int);
                    }
                }
            }
        }
    }

    fn expand_mapped_region(&mut self, size: u64, ops: &mut Vec<MmanOp>)
        requires
            old(self).spec_last_mapped() + size <= u64::MAX,
        ensures
            final(self).spec_last_mapped() == old(self).spec_last_mapped() + size,
            final(self).next_addr == old(self).next_addr,
            final(self).current_page == old(self).current_page,
            final(self).addr2lmeta == old(self).addr2lmeta,
            final(self).page_refs == old(self).page_refs,
            final(self).base == old(self).base,
            final(ops)@ == old(ops)@.push(
                MmanOp::Mmap { addr: old(self).spec_last_mapped(), size },
            ),
    {
        ops.push(MmanOp::Mmap { addr: self.last_mapped_addr, size });
        self.last_mapped_addr = self.last_mapped_addr + size;
    }
}

} // verus!
