use ota_allocator::metadata::thread_meta::addr_meta::AddrMeta as ThreadAddrMeta;
use ota_allocator::metadata::thread_meta::small_alloc::SmallAlloc;
use ota_allocator::metadata::thread_meta::small_allocator::SmallAllocator;
use ota_allocator::metadata::thread_meta::pool_allocator::pool::Pool as LegacyPoolForRelease;
use ota_allocator::utils::consts::{BINS_NO, POOL_SIZE, TANK_SIZE};
use ota_allocator::utils::mman_ops::MmanOp;

const FIRST: u64 = 0x0000_0300_0000_0000;

fn fresh() -> (SmallAllocator, Vec<MmanOp>) {
    let mut ops = Vec::new();
    let sa = SmallAllocator::new_in(FIRST, &mut ops);
    (sa, ops)
}

#[test]
fn small_new_maps_one_tank() {
    let (_sa, ops) = fresh();
    assert_eq!(ops, vec![MmanOp::Mmap { addr: FIRST, size: TANK_SIZE }]);
}

#[test]
fn sizes_go_to_their_bins() {
    // a fresh allocator gives bin i the i-th pool, so the first address
    // handed out for a size tells its bin
    let cases: [(u64, u64); 12] = [
        (0, 0),
        (1, 0),
        (16, 0),
        (17, 1),
        (32, 1),
        (33, 2),
        (100, 3),
        (2048, 7),
        (2049, 8),
        (4095, 8),
        (4096, 9),
        (8191, 9),
    ];
    for (size, bin) in cases {
        let (mut sa, mut ops) = fresh();
        let addr = sa.next_addr(size, &mut ops);
        assert_eq!(addr, FIRST + bin * POOL_SIZE, "size {}", size);
        assert_eq!(ops.len(), 1);
    }
}

#[test]
fn allocations_in_a_bin_follow_each_other() {
    let (mut sa, mut ops) = fresh();
    assert_eq!(sa.next_addr(20, &mut ops), FIRST + POOL_SIZE);
    assert_eq!(sa.next_addr(30, &mut ops), FIRST + POOL_SIZE + 32);
    assert_eq!(sa.next_addr(17, &mut ops), FIRST + POOL_SIZE + 64);
    assert_eq!(sa.usable_size(FIRST + POOL_SIZE + 32), 30);
    assert_eq!(sa.usable_size(FIRST + POOL_SIZE + 33), 0);
}

#[test]
fn free_forgets_the_allocation() {
    let (mut sa, mut ops) = fresh();
    let a = sa.next_addr(8, &mut ops);
    assert_eq!(sa.usable_size(a), 8);
    sa.free(a, &mut ops);
    assert_eq!(sa.usable_size(a), 0);
    // the bin still uses its pool: nothing is given back
    assert_eq!(ops.len(), 1);
    // a double free changes nothing
    sa.free(a, &mut ops);
    assert_eq!(ops.len(), 1);
}

#[test]
fn full_pool_is_given_back_after_its_last_allocation() {
    let (mut sa, mut ops) = fresh();
    let per_pool = POOL_SIZE / 16;
    let mut addrs = Vec::new();
    for i in 0..per_pool {
        let a = sa.next_addr(16, &mut ops);
        assert_eq!(a, FIRST + 16 * i);
        addrs.push(a);
    }
    // the bin moves on to a fresh pool, after the first ten
    let fresh_pool = FIRST + BINS_NO * POOL_SIZE;
    assert_eq!(sa.next_addr(16, &mut ops), fresh_pool);
    assert_eq!(ops.len(), 1);
    let last = addrs.pop().unwrap();
    for a in addrs {
        sa.free(a, &mut ops);
        assert_eq!(ops.len(), 1);
    }
    sa.free(last, &mut ops);
    assert_eq!(ops[1], MmanOp::Munmap { addr: FIRST, size: POOL_SIZE });
    assert_eq!(ops.len(), 2);
}

#[test]
fn pool_without_allocations_is_given_back_when_the_bin_leaves_it() {
    let (mut sa, mut ops) = fresh();
    // 5000 bytes: bin 9; the first fits in its pool, the second does not
    assert_eq!(sa.next_addr(5000, &mut ops), FIRST + 9 * POOL_SIZE);
    let a = FIRST + 9 * POOL_SIZE;
    sa.free(a, &mut ops);
    assert_eq!(ops.len(), 1);
    assert_eq!(sa.next_addr(5000, &mut ops), FIRST + BINS_NO * POOL_SIZE);
    assert_eq!(ops[1], MmanOp::Munmap { addr: FIRST + 9 * POOL_SIZE, size: POOL_SIZE });
}

#[test]
fn legacy_small_alloc_returns_metadata() {
    let mut ops = Vec::new();
    let mut sa = SmallAlloc::new_in(FIRST, &mut ops);
    assert_eq!(ops, vec![MmanOp::Mmap { addr: FIRST, size: TANK_SIZE }]);
    let (addr, meta) = sa.next_addr(100, &mut ops);
    assert_eq!(addr, FIRST + 3 * POOL_SIZE);
    assert_eq!(meta, ThreadAddrMeta::SmallMeta { size: 100, pool: FIRST + 3 * POOL_SIZE });
    let (addr, meta) = sa.next_addr(100, &mut ops);
    assert_eq!(addr, FIRST + 3 * POOL_SIZE + 112);
    assert_eq!(meta, ThreadAddrMeta::new_small(100, FIRST + 3 * POOL_SIZE));
    assert_eq!(ThreadAddrMeta::new_large(9000), ThreadAddrMeta::LargeMeta { size: 9000 });
}

#[test]
fn replaced_empty_allocation_stops_holding_its_pool() {
    let (mut sa, mut ops) = fresh();
    // a request of no bytes, then one of some bytes, land on the same address
    let a = sa.next_addr(0, &mut ops);
    let b = sa.next_addr(4, &mut ops);
    assert_eq!((a, b), (FIRST, FIRST));
    assert_eq!(sa.usable_size(FIRST), 4);
    sa.free(FIRST, &mut ops);
    assert_eq!(sa.usable_size(FIRST), 0);
    // fill the rest of the pool of bin 0, freeing as it goes
    let mut next = FIRST + 16;
    while next + 16 <= FIRST + POOL_SIZE {
        assert_eq!(sa.next_addr(16, &mut ops), next);
        sa.free(next, &mut ops);
        next += 16;
    }
    assert_eq!(ops.len(), 1);
    // the bin takes a fresh pool; nothing holds the old one any more, so it
    // is given back
    let c = sa.next_addr(16, &mut ops);
    assert_eq!(c, FIRST + BINS_NO * POOL_SIZE);
    assert_eq!(ops[ops.len() - 1], MmanOp::Munmap { addr: FIRST, size: POOL_SIZE });
}

#[test]
fn legacy_pool_goes_back_with_its_last_holder() {
    let mut ops = Vec::new();
    let mut sa = SmallAlloc::new_in(FIRST, &mut ops);
    // bin 9 takes a whole pool per request of a pool's size
    let (a, ma) = sa.next_addr(POOL_SIZE, &mut ops);
    assert_eq!(a, FIRST + 9 * POOL_SIZE);
    // the next one does not fit: the bin moves on, but the metadata still
    // holds the old pool
    let (b, mb) = sa.next_addr(POOL_SIZE, &mut ops);
    assert_eq!(b, FIRST + BINS_NO * POOL_SIZE);
    assert!(!ops.contains(&MmanOp::Munmap { addr: a, size: POOL_SIZE }));
    // letting go of the last holder gives the pool back
    let before = ops.len();
    sa.release(ma, &mut ops);
    assert_eq!(ops.len(), before + 1);
    assert_eq!(ops[before], MmanOp::Munmap { addr: a, size: POOL_SIZE });
    // the bin still carves from the pool of `b`
    sa.release(mb, &mut ops);
    assert_eq!(ops.len(), before + 1);
}

#[test]
fn legacy_pool_release_unmaps_it() {
    let mut ops = Vec::new();
    let pool = LegacyPoolForRelease::new(0x4000);
    pool.release(&mut ops);
    assert_eq!(ops, vec![MmanOp::Munmap { addr: 0x4000, size: POOL_SIZE }]);
}
