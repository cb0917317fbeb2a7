use ota_allocator::metadata::addr_meta::AddrMeta;
use ota_allocator::metadata::allocator_wrapper::AllocatorWrapper;
use ota_allocator::metadata::metadata_allocator_wrapper::MetaAllocWrapper;
use ota_allocator::metadata::thread_meta::ThreadMeta;
use ota_allocator::metadata::Metadata;
use ota_allocator::utils::consts::{
    FIRST_ADDR_SPACE_START, LARGE_ADDR_SPACE_OFFSET, POOL_SIZE, TANK_SIZE,
};
use ota_allocator::utils::mman_ops::MmanOp;

const FIRST: u64 = FIRST_ADDR_SPACE_START;

#[test]
fn thread_maps_both_halves() {
    let mut ops = Vec::new();
    let _t = ThreadMeta::new_in(FIRST, &mut ops);
    assert_eq!(
        ops,
        vec![
            MmanOp::Mmap { addr: FIRST, size: TANK_SIZE },
            MmanOp::Mmap { addr: FIRST + LARGE_ADDR_SPACE_OFFSET, size: TANK_SIZE },
        ]
    );
}

#[test]
fn thread_dispatches_by_size() {
    let mut ops = Vec::new();
    let mut t = ThreadMeta::new_in(FIRST, &mut ops);
    let small = t.next_addr(POOL_SIZE - 1, &mut ops);
    assert_eq!(small, FIRST + 9 * POOL_SIZE);
    let large = t.next_addr(POOL_SIZE, &mut ops);
    assert_eq!(large, FIRST + LARGE_ADDR_SPACE_OFFSET);
    assert_eq!(t.usable_size(small), POOL_SIZE - 1);
    assert_eq!(t.usable_size(large), POOL_SIZE);
    assert_eq!(ops.len(), 2);
    t.free(small, &mut ops);
    assert_eq!(ops.len(), 2);
    t.free(large, &mut ops);
    assert_eq!(
        ops[2],
        MmanOp::Munmap { addr: FIRST + LARGE_ADDR_SPACE_OFFSET, size: POOL_SIZE }
    );
    assert_eq!(t.usable_size(small), 0);
    assert_eq!(t.usable_size(large), 0);
}

#[test]
fn metadata_gives_each_thread_its_space() {
    let mut ops = Vec::new();
    let mut meta = Metadata::new_in(FIRST);
    assert_eq!(meta.get_tmeta(5), None);
    meta.add_new_thread(5, &mut ops);
    assert_eq!(meta.get_tmeta(5), Some(0));
    assert_eq!(ops[0], MmanOp::Mmap { addr: FIRST, size: TANK_SIZE });
    meta.add_new_thread(6, &mut ops);
    assert_eq!(meta.get_tmeta(6), Some(1));
    assert_eq!(ops[2], MmanOp::Mmap { addr: 0x0000_0400_0000_0000, size: TANK_SIZE });
    assert_eq!(meta.get_addr_tmeta(FIRST + 0x1234), Some(0));
    assert_eq!(meta.get_addr_tmeta(0x0000_04ff_ffff_ffff), Some(1));
    assert_eq!(meta.get_addr_tmeta(0x0000_0500_0000_0000), None);
    assert_eq!(meta.get_addr_tmeta(0), None);
}

#[test]
fn metadata_serves_threads_separately() {
    let mut ops = Vec::new();
    let mut meta = Metadata::new_in(FIRST);
    meta.add_new_thread(5, &mut ops);
    meta.add_new_thread(6, &mut ops);
    let a = meta.tmeta_next_addr(0, 24, &mut ops);
    let b = meta.tmeta_next_addr(1, 24, &mut ops);
    assert_eq!(a, FIRST + POOL_SIZE);
    assert_eq!(b, 0x0000_0400_0000_0000 + POOL_SIZE);
    assert_eq!(meta.tmeta_usable_size(0, a), 24);
    assert_eq!(meta.tmeta_usable_size(1, a), 0);
    meta.tmeta_free(0, a, &mut ops);
    assert_eq!(meta.tmeta_usable_size(0, a), 0);
    assert_eq!(meta.tmeta_usable_size(1, b), 24);
}

#[test]
fn wrappers_hold_what_they_are_given() {
    let w = AllocatorWrapper::new(42u32);
    assert_eq!(*w.wrapped_allocator(), 42);
    let m = MetaAllocWrapper::new(7u8);
    assert_eq!(m.allocator, 7);
    let _meta = AddrMeta::new(12);
}
