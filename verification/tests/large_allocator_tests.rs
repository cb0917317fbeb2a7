use ota_allocator::metadata::thread_meta::large_allocator::large_meta::LargeMeta;
use ota_allocator::metadata::thread_meta::large_allocator::{LargeAllocator, Page};
use ota_allocator::utils::consts::{PAGE_SIZE, POOL_SIZE, TANK_SIZE};
use ota_allocator::utils::mman_ops::MmanOp;

const BASE: u64 = 0x0000_0380_0000_0000;

#[test]
fn large_new_maps_one_tank() {
    let mut ops = Vec::new();
    let _la = LargeAllocator::new_in(BASE, &mut ops);
    assert_eq!(ops, vec![MmanOp::Mmap { addr: BASE, size: TANK_SIZE }]);
}

#[test]
fn addresses_follow_each_other_aligned() {
    let mut ops = Vec::new();
    let mut la = LargeAllocator::new_in(BASE, &mut ops);
    assert_eq!(la.next_addr(POOL_SIZE + 1, &mut ops), BASE);
    assert_eq!(la.next_addr(POOL_SIZE, &mut ops), BASE + POOL_SIZE + 16);
    assert_eq!(la.usable_size(BASE), POOL_SIZE + 1);
    assert_eq!(la.usable_size(BASE + 16), 0);
    assert_eq!(ops.len(), 1);
}

#[test]
fn mapped_region_grows_by_a_tank_or_by_what_is_missing_and_a_tank() {
    let mut ops = Vec::new();
    let mut la = LargeAllocator::new_in(BASE, &mut ops);
    assert_eq!(la.next_addr(TANK_SIZE, &mut ops), BASE);
    assert_eq!(ops.len(), 1);
    assert_eq!(la.next_addr(POOL_SIZE, &mut ops), BASE + TANK_SIZE);
    assert_eq!(ops[1], MmanOp::Mmap { addr: BASE + TANK_SIZE, size: TANK_SIZE });
    let a = la.next_addr(2 * TANK_SIZE, &mut ops);
    assert_eq!(a, BASE + TANK_SIZE + POOL_SIZE);
    assert_eq!(
        ops[2],
        MmanOp::Mmap { addr: BASE + 2 * TANK_SIZE, size: 2 * TANK_SIZE + POOL_SIZE }
    );
}

#[test]
fn free_gives_back_pages_that_nothing_else_uses() {
    let mut ops = Vec::new();
    let mut la = LargeAllocator::new_in(BASE, &mut ops);
    let a1 = la.next_addr(POOL_SIZE, &mut ops);
    let a2 = la.next_addr(POOL_SIZE, &mut ops);
    assert_eq!((a1, a2), (BASE, BASE + POOL_SIZE));
    // a1's last page is a2's first page: kept
    la.free(a1, &mut ops);
    assert_eq!(ops[1], MmanOp::Munmap { addr: BASE, size: POOL_SIZE });
    assert_eq!(la.usable_size(a1), 0);
    // a2's last page is the bump pointer's page: kept; its first page now free
    la.free(a2, &mut ops);
    assert_eq!(ops[2], MmanOp::Munmap { addr: BASE + POOL_SIZE, size: POOL_SIZE });
}

#[test]
fn free_keeps_pages_shared_with_live_neighbours() {
    let mut ops = Vec::new();
    let mut la = LargeAllocator::new_in(BASE, &mut ops);
    let a1 = la.next_addr(POOL_SIZE + 100, &mut ops);
    let a2 = la.next_addr(POOL_SIZE + 100, &mut ops);
    let a3 = la.next_addr(POOL_SIZE, &mut ops);
    assert_eq!(a2, BASE + POOL_SIZE + 112);
    assert_eq!(a3, a2 + POOL_SIZE + 112);
    // a2 starts in page 2 (shared with a1) and ends in page 4 (shared with a3)
    la.free(a2, &mut ops);
    assert_eq!(ops[1], MmanOp::Munmap { addr: BASE + 3 * PAGE_SIZE, size: PAGE_SIZE });
    // a1 now owns its last page alone
    la.free(a1, &mut ops);
    assert_eq!(ops[2], MmanOp::Munmap { addr: BASE, size: 3 * PAGE_SIZE });
}

#[test]
fn large_meta_records_pages() {
    let m = LargeMeta::new_in(10, Page(0x1000), Page(0x3000));
    assert_eq!(m.size, 10);
    assert_eq!(m.first_page, Page(0x1000));
    assert_eq!(m.last_page, Page(0x3000));
}
