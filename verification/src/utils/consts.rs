use vstd::prelude::*;

verus! {

/// Number of thread entries reserved up front in the thread table.
pub const RESV_THREADS_NO: u64 = 8;

/// Number of address entries reserved up front in each address table.
pub const RESV_ADDRS_NO: u64 = 16;

pub const PAGE_SIZE: u64 = 4096;

// Address layout (47 usable address bits):
// - each address space has a size of 2^40 (1 TB); its index is `addr >> 40`,
//   so there are 128 of them;
// - address space 0x001 holds the test heap, 0x002 the metadata heap;
// - every thread that allocates gets its own address space, from 0x003 on;
// - the lower half of a thread's space serves small requests (pools), the
//   upper half, from `LARGE_ADDR_SPACE_OFFSET` on, serves large ones.
pub const FIRST_ADDR_SPACE_START: u64 = 0x0000_0300_0000_0000;
pub const ADDR_SPACE_MAX_SIZE: u64 = 0x0000_0100_0000_0000;
pub const ADDR_SPACE_MASK: u64 = 0xFFFF_FF00_0000_0000;
pub const ADDR_SPACE_BIT: u64 = 40;
pub const LARGE_ADDR_SPACE_OFFSET: u64 = 0x0000_0080_0000_0000;
pub const LARGE_ADDR_SPACE_MASK: u64 = 0x0000_0080_0000_0000;

/// Index of the first address space handed to a thread.
pub const FIRST_ADDR_SPACE_ID: u64 = 3;

/// Number of address spaces, hence the bound on the index of a thread's space.
pub const MAX_THREADS_NO: u64 = 128;

pub const META_ADDR_SPACE_START: u64 = 0x0000_0200_0000_0000;
pub const META_ADDR_SPACE_MAX_SIZE: u64 = TANK_SIZE;

pub const TEST_ADDR_SPACE_START: u64 = 0x0000_0100_0000_0000;
pub const TEST_ADDR_SPACE_MAX_SIZE: u64 = 32 * PAGE_SIZE;

pub const POOL_SIZE: u64 = 2 * PAGE_SIZE;
pub const TANK_SIZE: u64 = 512 * POOL_SIZE;

/// How far the older pool allocator extends its mapped region at a time.
pub const MAPPED_MEMORY_EXTENSION_SIZE: u64 = TANK_SIZE;

/// Alignment of every address handed out.
pub const STANDARD_ALIGN: u64 = 16;

pub const BINS_NO: u64 = 10;

}
