// The allocation patterns of boxes and vectors, played against the allocator
// as a global allocator would: each box or buffer is allocated, checked and
// freed, each vector growth frees the old buffer and allocates the new one.

use ota_allocator::utils::consts::{POOL_SIZE, TANK_SIZE};
use ota_allocator::utils::mman_ops::MmanOp;
use ota_allocator::OtaAllocator;

const TID: u64 = 1;

fn init_test() -> (OtaAllocator, Vec<MmanOp>) {
    let mut a = OtaAllocator::new_in();
    a.init();
    (a, Vec::new())
}

fn boxed(a: &mut OtaAllocator, ops: &mut Vec<MmanOp>, size: u64) -> u64 {
    let p = a.allocate(TID, size, ops);
    assert_eq!(p % 16, 0);
    assert_eq!(a.usable_size(p), size);
    p
}

fn drop_box(a: &mut OtaAllocator, ops: &mut Vec<MmanOp>, p: u64) {
    a.dealloc(p, ops);
    assert_eq!(a.usable_size(p), 0);
}

fn simple_box_allocation(a: &mut OtaAllocator, ops: &mut Vec<MmanOp>) {
    let x = boxed(a, ops, 4);
    drop_box(a, ops, x);
}

fn multiple_boxes_allocation(a: &mut OtaAllocator, ops: &mut Vec<MmanOp>) {
    let x = boxed(a, ops, 4);
    let y = boxed(a, ops, 4);
    let z = boxed(a, ops, 4);
    assert!(x != y && y != z && x != z);
    drop_box(a, ops, z);
    drop_box(a, ops, y);
    drop_box(a, ops, x);
}

fn intertwined_box_allocation(a: &mut OtaAllocator, ops: &mut Vec<MmanOp>) {
    let x = boxed(a, ops, 4);
    let y = boxed(a, ops, 4);
    let z = boxed(a, ops, 4);
    {
        let u = boxed(a, ops, 4);
        assert!(u != x && u != y && u != z);
        drop_box(a, ops, u);
    }
    assert_eq!(a.usable_size(z), 4);
    drop_box(a, ops, z);
    drop_box(a, ops, y);
    drop_box(a, ops, x);
}

/// Pushes `size` elements of `elem` bytes, growing the buffer as a vector
/// does, and checks that every element lies inside the live buffer.
fn vec_of(a: &mut OtaAllocator, ops: &mut Vec<MmanOp>, size: u64, elem: u64) {
    let mut cap: u64 = 0;
    let mut buf: u64 = 0;
    for i in 0..size {
        if i == cap {
            let new_cap = if cap == 0 { 4 } else { 2 * cap };
            buf = if cap == 0 {
                a.allocate(TID, new_cap * elem, ops)
            } else {
                a.realloc(TID, buf, new_cap * elem, ops)
            };
            cap = new_cap;
            assert_eq!(a.usable_size(buf), cap * elem);
        }
        // element `i` lies inside the buffer that is live now
        assert!(buf + (i + 1) * elem <= buf + a.usable_size(buf));
    }
    assert!(size <= cap);
    if cap > 0 {
        drop_box(a, ops, buf);
    }
}

fn vec_allocation(a: &mut OtaAllocator, ops: &mut Vec<MmanOp>, size: u64) {
    vec_of(a, ops, size, 8);
}

fn many_small_allocations(a: &mut OtaAllocator, ops: &mut Vec<MmanOp>) {
    // consume the first pool
    for _ in 0..(POOL_SIZE / 16 + 1) {
        let p = boxed(a, ops, 16);
        drop_box(a, ops, p);
    }
    // consume multiple pools
    for _ in 0..4 {
        for _ in 0..(POOL_SIZE / 16 + 1) {
            let p = boxed(a, ops, 16);
            drop_box(a, ops, p);
        }
    }
    // trigger a second mmap call
    for _ in 0..(TANK_SIZE / 16 + 1) {
        let p = boxed(a, ops, 16);
        drop_box(a, ops, p);
    }
    // trigger multiple mmap calls
    for _ in 0..4 {
        for _ in 0..(TANK_SIZE / 16) {
            let p = boxed(a, ops, 16);
            drop_box(a, ops, p);
        }
    }
}

#[test]
fn clasic_allocations_simple_box_allocation() {
    let (mut a, mut ops) = init_test();
    simple_box_allocation(&mut a, &mut ops);
}

#[test]
fn clasic_allocations_multiple_boxes_allocation() {
    let (mut a, mut ops) = init_test();
    multiple_boxes_allocation(&mut a, &mut ops);
}

#[test]
fn clasic_allocations_intertwined_box_allocation() {
    let (mut a, mut ops) = init_test();
    intertwined_box_allocation(&mut a, &mut ops);
}

#[test]
fn clasic_allocations_vec_allocation() {
    let (mut a, mut ops) = init_test();
    vec_allocation(&mut a, &mut ops, 256);
}

#[test]
fn clasic_allocations_mixed_allocation() {
    let (mut a, mut ops) = init_test();
    vec_allocation(&mut a, &mut ops, 2);
    intertwined_box_allocation(&mut a, &mut ops);
    vec_allocation(&mut a, &mut ops, 128);
    simple_box_allocation(&mut a, &mut ops);
    simple_box_allocation(&mut a, &mut ops);
    vec_allocation(&mut a, &mut ops, 64);
    intertwined_box_allocation(&mut a, &mut ops);
}

#[test]
fn clasic_allocations_many_small_allocations() {
    let (mut a, mut ops) = init_test();
    many_small_allocations(&mut a, &mut ops);
    // every pool but the ones the bins use was given back, and the tanks were
    // mapped one after the other
    let maps = ops.iter().filter(|op| matches!(op, MmanOp::Mmap { .. })).count();
    assert!(maps >= 3);
}
