use vstd::prelude::*;

pub mod consts;
pub mod mman_ops;

use vstd::arithmetic::power2::pow2;
use vstd::bits::{low_bits_mask, lemma_u64_low_bits_mask_is_mod, lemma_u64_pow2_no_overflow};

verus! {

/// `align` is a power of two below 2^64.
pub open spec fn is_pow2(align: int) -> bool {
    exists|n: nat| n < 64 && pow2(n) == align
}

/// The least multiple of `align` that is at least `addr`.
pub open spec fn align_up_spec(addr: int, align: int) -> int {
    ((addr + align - 1) / align) * align
}

/// The greatest multiple of `align` that is at most `addr`.
pub open spec fn align_down_spec(addr: int, align: int) -> int {
    (addr / align) * align
}

proof fn lemma_and_not(x: u64, m: u64)
    by (bit_vector)
    ensures
        x & !m == x - (x & m),
{
}

proof fn lemma_round_down(x: int, a: int)
    by (nonlinear_arith)
    requires
        a > 0,
        x >= 0,
    ensures
        x - x % a == (x / a) * a,
        (x / a) * a <= x,
        x < (x / a) * a + a,
{
}

/// For a power of two `a`, clearing the low bits of `x` rounds it down to a
/// multiple of `a`.
pub proof fn lemma_mask_rounds_down(x: u64, a: u64)
    requires
        is_pow2(a as int),
    ensures
        x & !((a - 1) as u64) == align_down_spec(x as int, a as int),
        align_down_spec(x as int, a as int) <= x,
        x < align_down_spec(x as int, a as int) + a,
        align_down_spec(x as int, a as int) % (a as int) == 0,
{
    let n = choose|n: nat| n < 64 && pow2(n) == a as int;
    lemma_u64_pow2_no_overflow(n);
    lemma_u64_low_bits_mask_is_mod(x, n);
    assert(low_bits_mask(n) == a - 1);
    lemma_and_not(x, (a - 1) as u64);
    lemma_round_down(x as int, a as int);
    vstd::arithmetic::div_mod::lemma_mod_multiples_basic(x as int / a as int, a as int);
}

/// Rounds `addr` up with the mask of `align`; for a power of two this is the
/// next multiple of `align`.
pub fn align_up(addr: u64, align: u64) -> (r: u64)
    requires
        align >= 1,
        addr + align - 1 <= u64::MAX,
    ensures
        r == (((addr + align - 1) as u64) & !((align - 1) as u64)),
        is_pow2(align as int) ==> r == align_up_spec(addr as int, align as int),
        is_pow2(align as int) ==> addr <= r < addr + align,
        is_pow2(align as int) ==> (r as int) % (align as int) == 0,
{
    let s = addr + (align - 1);
    proof {
        if is_pow2(align as int) {
            lemma_mask_rounds_down(s, align);
        }
    }
    s & !(align - 1)
}

/// Clears the bits of `addr` below `align`; for a power of two this rounds
/// down to a multiple of `align`.
pub fn align_down(addr: u64, align: u64) -> (r: u64)
    requires
        align >= 1,
    ensures
        r == addr & !((align - 1) as u64),
        is_pow2(align as int) ==> r == align_down_spec(addr as int, align as int),
        is_pow2(align as int) ==> r <= addr < r + align,
        is_pow2(align as int) ==> (r as int) % (align as int) == 0,
{
    proof {
        if is_pow2(align as int) {
            lemma_mask_rounds_down(addr, align);
        }
    }
    addr & !(align - 1)
}

}

verus! {

use crate::utils::consts::{
    ADDR_SPACE_BIT, ADDR_SPACE_MASK, LARGE_ADDR_SPACE_MASK, PAGE_SIZE, POOL_SIZE, STANDARD_ALIGN,
};

/// The region `[a, a + sa)` and the region `[b, b + sb)` do not overlap.
pub open spec fn regions_disjoint(a: int, sa: int, b: int, sb: int) -> bool {
    a + sa <= b || b + sb <= a
}

/// `op` gives back nothing of the region `[a, a + s)`.
pub open spec fn spares(op: crate::utils::mman_ops::MmanOp, a: int, s: int) -> bool {
    match op {
        crate::utils::mman_ops::MmanOp::Munmap { addr, size } => regions_disjoint(
            addr as int,
            size as int,
            a,
            s,
        ),
        crate::utils::mman_ops::MmanOp::Mmap { .. } => true,
    }
}

/// What `op` gives back, if anything, lies in `[lo, hi)`.
pub open spec fn unmaps_within(op: crate::utils::mman_ops::MmanOp, lo: int, hi: int) -> bool {
    match op {
        crate::utils::mman_ops::MmanOp::Munmap { addr, size } => lo <= addr && addr + size <= hi,
        crate::utils::mman_ops::MmanOp::Mmap { .. } => true,
    }
}

/// Size of one address space: 2^40 bytes.
pub open spec fn addr_space_size() -> int {
    0x100_0000_0000
}

/// The powers of two that the allocator aligns to.
pub proof fn lemma_align_consts_pow2()
    ensures
        is_pow2(STANDARD_ALIGN as int),
        is_pow2(PAGE_SIZE as int),
        is_pow2(POOL_SIZE as int),
{
    vstd::arithmetic::power2::lemma2_to64();
    assert(pow2(4) == STANDARD_ALIGN);
    assert(pow2(12) == PAGE_SIZE);
    assert(pow2(13) == POOL_SIZE);
}

/// Going from an address space's index to its start and back gives the
/// index again (for every index the shift keeps), and the start of the space
/// of an address is the start of the space with that address's index.
pub proof fn lemma_address_space_round_trip(id: u64, addr: u64)
    ensures
        id < 0x100_0000 ==> ((id as int % 0x100_0000) * addr_space_size()) / addr_space_size() == id,
        align_down_spec(addr as int, addr_space_size()) == ((addr as int / addr_space_size())
            % 0x100_0000) * addr_space_size(),
{
    assert(id < 0x100_0000 ==> ((id as int % 0x100_0000) * 0x100_0000_0000) / 0x100_0000_0000 == id)
        by (nonlinear_arith);
    assert(addr as int / 0x100_0000_0000 < 0x100_0000) by (nonlinear_arith)
        requires
            addr <= 0xFFFF_FFFF_FFFF_FFFF,
    ;
}

/// Start of the address space that `addr` lies in.
pub fn get_addr_space(addr: u64) -> (r: u64)
    ensures
        r == align_down_spec(addr as int, addr_space_size()),
{
    assert(addr & 0xFFFF_FF00_0000_0000u64 == addr - addr % 0x100_0000_0000u64) by (bit_vector);
    proof {
        lemma_round_down(addr as int, addr_space_size());
    }
    addr & ADDR_SPACE_MASK
}

/// Whether `addr` lies in the lower (small-allocation) half of its address space.
pub fn is_small_addr(addr: u64) -> (r: bool)
    ensures
        r == ((addr as int % addr_space_size()) < addr_space_size() / 2),
{
    assert((addr & 0x80_0000_0000u64 == 0) == (addr % 0x100_0000_0000u64 < 0x80_0000_0000u64))
        by (bit_vector);
    addr & LARGE_ADDR_SPACE_MASK == 0
}

/// Start of the address space with index `address_space_id` (the index is
/// taken modulo 2^24, as the shift drops the higher bits).
pub fn get_address_space_for_id(address_space_id: u64) -> (r: u64)
    ensures
        r == (address_space_id as int % 0x100_0000) * addr_space_size(),
{
    assert(address_space_id << 40u64 == (address_space_id % 0x100_0000u64) * 0x100_0000_0000u64)
        by (bit_vector);
    address_space_id << ADDR_SPACE_BIT
}

/// Index of the address space that `addr` lies in.
pub fn get_address_space_id(addr: u64) -> (r: u64)
    ensures
        r == addr as int / addr_space_size(),
{
    let space = get_addr_space(addr);
    assert(space == addr - addr % 0x100_0000_0000u64);
    assert(addr & 0xFFFF_FF00_0000_0000u64 == addr - addr % 0x100_0000_0000u64) by (bit_vector);
    assert((addr - addr % 0x100_0000_0000u64) as u64 >> 40u64 == addr / 0x100_0000_0000u64)
        by (bit_vector);
    space >> ADDR_SPACE_BIT
}

}
