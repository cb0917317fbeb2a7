// The two-thread allocation patterns, played against the allocator with two
// thread ids, one task after the other (one of the interleavings the threads
// can produce).

use ota_allocator::utils::consts::{POOL_SIZE, TANK_SIZE};
use ota_allocator::utils::mman_ops::MmanOp;
use ota_allocator::OtaAllocator;

struct Host {
    a: OtaAllocator,
    ops: Vec<MmanOp>,
}

fn init_test() -> Host {
    let mut a = OtaAllocator::new_in();
    a.init();
    Host { a, ops: Vec::new() }
}

impl Host {
    fn boxed(&mut self, tid: u64, size: u64) -> u64 {
        let p = self.a.allocate(tid, size, &mut self.ops);
        assert_eq!(p % 16, 0);
        assert_eq!(self.a.usable_size(p), size);
        p
    }

    fn drop_box(&mut self, p: u64) {
        self.a.dealloc(p, &mut self.ops);
        assert_eq!(self.a.usable_size(p), 0);
    }

    /// Grows a buffer of `size` elements of `elem` bytes as a vector does;
    /// returns the buffer, if any.
    fn vec_keep(&mut self, tid: u64, size: u64, elem: u64) -> Option<u64> {
        let mut cap: u64 = 0;
        let mut buf: u64 = 0;
        for i in 0..size {
            if i == cap {
                let new_cap = if cap == 0 { 4 } else { 2 * cap };
                buf = if cap == 0 {
                    self.a.allocate(tid, new_cap * elem, &mut self.ops)
                } else {
                    self.a.realloc(tid, buf, new_cap * elem, &mut self.ops)
                };
                cap = new_cap;
                assert_eq!(self.a.usable_size(buf), cap * elem);
            }
            // element `i` lies inside the buffer that is live now
            assert!(buf + (i + 1) * elem <= buf + self.a.usable_size(buf));
        }
        assert!(size <= cap);
        if cap > 0 {
            Some(buf)
        } else {
            None
        }
    }

    fn vec_allocation(&mut self, tid: u64, size: u64) {
        if let Some(buf) = self.vec_keep(tid, size, 8) {
            self.drop_box(buf);
        }
    }

    fn simple_box_allocation(&mut self, tid: u64) {
        let x = self.boxed(tid, 4);
        self.drop_box(x);
    }

    fn multiple_boxes_allocation(&mut self, tid: u64) {
        let x = self.boxed(tid, 4);
        let y = self.boxed(tid, 4);
        let z = self.boxed(tid, 4);
        self.drop_box(z);
        self.drop_box(y);
        self.drop_box(x);
    }

    fn intertwined_box_allocation(&mut self, tid: u64) {
        let x = self.boxed(tid, 4);
        let y = self.boxed(tid, 4);
        let z = self.boxed(tid, 4);
        let u = self.boxed(tid, 4);
        self.drop_box(u);
        assert_eq!(self.a.usable_size(z), 4);
        self.drop_box(z);
        self.drop_box(y);
        self.drop_box(x);
    }

    fn many_small_allocations(&mut self, tid: u64) {
        let rounds: [(u64, u64); 4] =
            [(1, POOL_SIZE / 16 + 1), (4, POOL_SIZE / 16 + 1), (1, TANK_SIZE / 16 + 1), (4, TANK_SIZE / 16)];
        for (times, count) in rounds {
            for _ in 0..times {
                for _ in 0..count {
                    let p = self.boxed(tid, 16);
                    self.drop_box(p);
                }
            }
        }
    }

    fn many_bins_allocations(&mut self, tid: u64) {
        let x1 = self.boxed(tid, 6);
        let x2 = self.boxed(tid, 16);
        let x3 = self.boxed(tid, 16);
        self.drop_box(x3);
        let x4 = self.boxed(tid, 48);
        let x5 = self.boxed(tid, 64);
        let x6 = self.boxed(tid, 64);
        let x7 = self.boxed(tid, 160);
        let x8 = self.boxed(tid, 160);
        let x9 = self.boxed(tid, 180);
        let x10 = self.boxed(tid, 160);
        self.drop_box(x10);
        self.drop_box(x9);
        self.drop_box(x8);
        let x11 = self.boxed(tid, 160);
        let x12 = self.boxed(tid, 180);
        let x13 = self.boxed(tid, 2048);
        let x14 = self.boxed(tid, 2400);
        let x15 = self.boxed(tid, 4096);
        let x16 = self.boxed(tid, 2400);
        let x17 = self.boxed(tid, 4096);
        let x18 = self.boxed(tid, 2048);
        let x19 = self.boxed(tid, 2400);
        for x in [x19, x18, x17, x16] {
            self.drop_box(x);
        }
        let x20 = self.boxed(tid, 2400);
        for x in [x20, x15, x14, x13, x12, x11, x7, x6, x5, x4, x2, x1] {
            self.drop_box(x);
        }
    }

    fn large_allocations(&mut self, tid: u64) {
        let mut live = Vec::new();
        live.extend(self.vec_keep(tid, POOL_SIZE / 16 + 1, 8));
        live.extend(self.vec_keep(tid, TANK_SIZE / 16 + 1, 8));
        for i in 1..4 {
            if let Some(buf) = self.vec_keep(tid, i * POOL_SIZE / 16 + i * 16, 8) {
                self.drop_box(buf);
            }
        }
        live.extend(self.vec_keep(tid, 2 * TANK_SIZE / 16 + 1, 8));
        live.extend(self.vec_keep(tid, POOL_SIZE / 16 + 1, 8));
        for buf in live.into_iter().rev() {
            self.drop_box(buf);
        }
    }
}

#[test]
fn parallel_allocations_simple_box_allocation() {
    let mut h = init_test();
    h.simple_box_allocation(1);
    h.simple_box_allocation(2);
}

#[test]
fn parallel_allocations_multiple_boxes_allocation() {
    let mut h = init_test();
    h.multiple_boxes_allocation(1);
    h.multiple_boxes_allocation(2);
}

#[test]
fn parallel_allocations_intertwined_box_allocation() {
    let mut h = init_test();
    h.intertwined_box_allocation(1);
    h.intertwined_box_allocation(2);
}

#[test]
fn parallel_allocations_vec_allocation() {
    let mut h = init_test();
    h.vec_allocation(1, 128);
    h.vec_allocation(2, 256);
}

#[test]
fn parallel_allocations_mixed_allocation() {
    let mut h = init_test();
    h.vec_allocation(1, 128);
    h.intertwined_box_allocation(1);
    h.vec_allocation(1, 64);
    h.vec_allocation(1, 2);
    h.simple_box_allocation(1);
    h.intertwined_box_allocation(1);
    h.vec_allocation(2, 2);
    h.vec_allocation(2, 32);
    h.simple_box_allocation(2);
    h.intertwined_box_allocation(2);
    h.vec_allocation(2, 16);
}

#[test]
fn many_threads() {
    let mut h = init_test();
    for tid in 0..16 {
        h.vec_allocation(tid, 32);
        h.simple_box_allocation(tid);
        h.intertwined_box_allocation(tid);
        h.vec_allocation(tid, 64);
        h.intertwined_box_allocation(tid);
    }
    // sixteen threads, sixteen address spaces, two tanks each
    let maps = h.ops.iter().filter(|op| matches!(op, MmanOp::Mmap { .. })).count();
    assert!(maps >= 32);
}

#[test]
fn parallel_allocations_many_small_allocations() {
    let mut h = init_test();
    h.many_small_allocations(1);
    h.many_small_allocations(2);
}

#[test]
fn many_bins_allocations() {
    let mut h = init_test();
    h.many_bins_allocations(1);
    h.many_bins_allocations(2);
}

#[test]
fn large_allocations() {
    let mut h = init_test();
    h.large_allocations(1);
    h.large_allocations(2);
}

#[test]
fn mixed_large_small_allocations() {
    let mut h = init_test();
    h.many_bins_allocations(1);
    h.large_allocations(1);
    h.large_allocations(1);
    h.many_bins_allocations(1);
    h.simple_box_allocation(2);
    h.large_allocations(2);
    h.many_bins_allocations(2);
}
