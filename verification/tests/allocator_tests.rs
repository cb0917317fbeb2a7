use ota_allocator::utils::consts::{
    FIRST_ADDR_SPACE_START, LARGE_ADDR_SPACE_OFFSET, POOL_SIZE, TANK_SIZE,
};
use ota_allocator::utils::mman_ops::MmanOp;
use ota_allocator::OtaAllocator;

const FIRST: u64 = FIRST_ADDR_SPACE_START;

fn ready() -> OtaAllocator {
    let mut a = OtaAllocator::new_in();
    a.init();
    a
}

#[test]
fn first_request_of_a_thread_maps_its_space() {
    let mut a = ready();
    let mut ops = Vec::new();
    let p = a.allocate(7, 4, &mut ops);
    assert_eq!(p, FIRST);
    assert_eq!(
        ops,
        vec![
            MmanOp::Mmap { addr: FIRST, size: TANK_SIZE },
            MmanOp::Mmap { addr: FIRST + LARGE_ADDR_SPACE_OFFSET, size: TANK_SIZE },
        ]
    );
    let q = a.allocate(7, 4, &mut ops);
    assert_eq!(q, FIRST + 16);
    assert_eq!(ops.len(), 2);
}

#[test]
fn usable_size_reads_back_the_request() {
    let mut a = ready();
    let mut ops = Vec::new();
    let p = a.allocate(7, 40, &mut ops);
    assert_eq!(a.usable_size(p), 40);
    let q = a.allocate(7, 3 * POOL_SIZE, &mut ops);
    assert_eq!(q, FIRST + LARGE_ADDR_SPACE_OFFSET);
    assert_eq!(a.usable_size(q), 3 * POOL_SIZE);
    a.dealloc(p, &mut ops);
    assert_eq!(a.usable_size(p), 0);
    assert_eq!(a.usable_size(q), 3 * POOL_SIZE);
}

#[test]
fn threads_get_their_own_spaces() {
    let mut a = ready();
    let mut ops = Vec::new();
    let p = a.allocate(7, 8, &mut ops);
    let q = a.allocate(9, 8, &mut ops);
    assert_eq!(p, FIRST);
    assert_eq!(q, 0x0000_0400_0000_0000);
    assert_eq!(ops.len(), 4);
    a.dealloc(q, &mut ops);
    assert_eq!(a.usable_size(q), 0);
    assert_eq!(a.usable_size(p), 8);
}

#[test]
fn invalid_and_double_free_change_nothing() {
    let mut a = ready();
    let mut ops = Vec::new();
    let p = a.allocate(7, 8, &mut ops);
    a.dealloc(0, &mut ops);
    a.dealloc(0x0000_0700_0000_0000, &mut ops);
    assert_eq!(ops.len(), 2);
    a.dealloc(p, &mut ops);
    a.dealloc(p, &mut ops);
    assert_eq!(ops.len(), 2);
    assert_eq!(a.usable_size(p), 0);
}

#[test]
fn large_free_gives_back_its_pages() {
    let mut a = ready();
    let mut ops = Vec::new();
    let p = a.allocate(7, POOL_SIZE, &mut ops);
    let q = a.allocate(7, POOL_SIZE, &mut ops);
    let large = FIRST + LARGE_ADDR_SPACE_OFFSET;
    assert_eq!((p, q), (large, large + POOL_SIZE));
    a.dealloc(p, &mut ops);
    assert_eq!(ops[2], MmanOp::Munmap { addr: large, size: POOL_SIZE });
    a.dealloc(q, &mut ops);
    assert_eq!(ops[3], MmanOp::Munmap { addr: large + POOL_SIZE, size: POOL_SIZE });
}

#[test]
fn realloc_frees_then_allocates() {
    let mut a = ready();
    let mut ops = Vec::new();
    let p = a.allocate(7, 32, &mut ops);
    let q = a.realloc(7, p, 64, &mut ops);
    assert_eq!(p, FIRST + POOL_SIZE);
    assert_eq!(q, FIRST + 2 * POOL_SIZE);
    assert_eq!(a.usable_size(p), 0);
    assert_eq!(a.usable_size(q), 64);
}

#[test]
fn alloc_zeroed_serves_like_allocate() {
    let mut a = ready();
    let mut ops = Vec::new();
    let p = a.alloc_zeroed(7, 16, &mut ops);
    assert_eq!(p, FIRST);
    assert_eq!(a.usable_size(p), 16);
}

#[test]
fn freed_address_is_not_handed_out_again() {
    let mut a = ready();
    let mut ops = Vec::new();
    let p = a.allocate(7, 4, &mut ops);
    a.dealloc(p, &mut ops);
    let q = a.allocate(7, 4, &mut ops);
    assert_eq!(p, FIRST);
    assert_eq!(q, FIRST + 16);
    assert_eq!(ops.len(), 2);
}

#[test]
fn realloc_gives_back_nothing_of_the_new_block() {
    let mut a = ready();
    let mut ops = Vec::new();
    let p = a.allocate(7, POOL_SIZE, &mut ops);
    let before = ops.len();
    let q = a.realloc(7, p, 2 * POOL_SIZE, &mut ops);
    let large = FIRST + LARGE_ADDR_SPACE_OFFSET;
    assert_eq!((p, q), (large, large + POOL_SIZE));
    assert_eq!(a.usable_size(q), 2 * POOL_SIZE);
    assert!(ops.len() > before);
    for op in &ops[before..] {
        if let MmanOp::Munmap { addr, size } = *op {
            assert!(addr + size <= q || q + 2 * POOL_SIZE <= addr);
        }
    }
}
