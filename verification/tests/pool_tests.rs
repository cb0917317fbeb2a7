use ota_allocator::metadata::thread_meta::pool_allocator::pool::{Pool as LegacyPool, PoolAllocError};
use ota_allocator::metadata::thread_meta::pool_allocator::PoolAllocator as LegacyPoolAllocator;
use ota_allocator::metadata::thread_meta::small_allocator::pool::Pool;
use ota_allocator::metadata::thread_meta::small_allocator::pool_allocator::PoolAllocator;
use ota_allocator::utils::consts::{POOL_SIZE, TANK_SIZE};
use ota_allocator::utils::mman_ops::MmanOp;

#[test]
fn pool_bumps_aligned_addresses() {
    let mut pool = Pool::new(0x1000);
    assert_eq!(pool.start_addr(), 0x1000);
    assert_eq!(pool.next_addr(10), Some(0x1000));
    assert_eq!(pool.next_addr(1), Some(0x1010));
    assert_eq!(pool.next_addr(16), Some(0x1020));
    assert_eq!(pool.next_addr(8192), None);
}

#[test]
fn pool_fills_up_exactly() {
    let mut pool = Pool::new(0x4000);
    for i in 0..(POOL_SIZE / 16) {
        assert_eq!(pool.next_addr(16), Some(0x4000 + 16 * i));
    }
    assert_eq!(pool.next_addr(1), None);
}

#[test]
fn pool_zero_size_requests_share_an_address() {
    let mut pool = Pool::new(0x1000);
    assert_eq!(pool.next_addr(0), Some(0x1000));
    assert_eq!(pool.next_addr(0), Some(0x1000));
    assert_eq!(pool.next_addr(1), Some(0x1000));
    assert_eq!(pool.next_addr(0), Some(0x1010));
}

#[test]
fn pool_allocator_maps_tanks() {
    let mut ops = Vec::new();
    let mut pa = PoolAllocator::new(0x10_0000, &mut ops);
    assert_eq!(ops, vec![MmanOp::Mmap { addr: 0x10_0000, size: TANK_SIZE }]);
    let per_tank = TANK_SIZE / POOL_SIZE;
    for i in 0..per_tank {
        let pool = pa.next_pool(&mut ops);
        assert_eq!(pool.start_addr(), 0x10_0000 + i * POOL_SIZE);
    }
    // the last pool of the tank ends where the tank ends: nothing more mapped
    assert_eq!(ops.len(), 1);
    // the next pool lies past the tank: a new tank is mapped
    let pool = pa.next_pool(&mut ops);
    assert_eq!(pool.start_addr(), 0x10_0000 + TANK_SIZE);
    assert_eq!(
        ops,
        vec![
            MmanOp::Mmap { addr: 0x10_0000, size: TANK_SIZE },
            MmanOp::Mmap { addr: 0x10_0000 + TANK_SIZE, size: TANK_SIZE },
        ]
    );
}

#[test]
fn legacy_pool_reports_what_is_left() {
    let mut pool = LegacyPool::new(0x1000);
    assert_eq!(pool.allocate(10), Ok(0x1000));
    assert_eq!(pool.allocate(0x2000), Err(PoolAllocError { addr: 0x1010, allocated: 0x1ff0 }));
}

#[test]
fn legacy_pool_fills_to_the_end() {
    let mut pool = LegacyPool::new(0x1000);
    assert_eq!(pool.allocate(10), Ok(0x1000));
    assert_eq!(pool.allocate(0x1ff0), Ok(0x1010));
    assert_eq!(pool.allocate(1), Err(PoolAllocError { addr: 0x3000, allocated: 0 }));
}

#[test]
fn legacy_pool_allocator_maps_on_demand() {
    let mut ops = Vec::new();
    let mut pa = LegacyPoolAllocator::new(0x1000);
    let pool = pa.next_pool(&mut ops);
    drop(pool);
    assert_eq!(ops, vec![MmanOp::Mmap { addr: 0x1000, size: TANK_SIZE }]);
    assert_eq!(pa.next_region(100, &mut ops), 0x3000);
    assert_eq!(ops.len(), 1);
    assert_eq!(pa.next_region(0x50_0000, &mut ops), 0x5000);
    assert_eq!(ops[1], MmanOp::Mmap { addr: 0x1000 + TANK_SIZE, size: 0x50_0000 });
    // a small region after that fits in what was mapped
    assert_eq!(pa.next_region(1, &mut ops), 0x50_5000);
    assert_eq!(ops.len(), 2);
}
