use ota_allocator::utils::consts::{
    FIRST_ADDR_SPACE_START, LARGE_ADDR_SPACE_OFFSET, PAGE_SIZE, POOL_SIZE, STANDARD_ALIGN,
    TANK_SIZE,
};
use ota_allocator::utils::{
    align_down, align_up, get_addr_space, get_address_space_for_id, get_address_space_id,
    is_small_addr,
};

#[test]
fn align_up_rounds_to_next_multiple() {
    assert_eq!(align_up(17, STANDARD_ALIGN), 32);
    assert_eq!(align_up(32, STANDARD_ALIGN), 32);
    assert_eq!(align_up(0, STANDARD_ALIGN), 0);
    assert_eq!(align_up(1, POOL_SIZE), 8192);
    assert_eq!(align_up(8193, POOL_SIZE), 16384);
}

#[test]
fn align_up_with_non_power_of_two_uses_the_mask() {
    // (10 + 3 - 1) & !2 == 12 & !2 == 12
    assert_eq!(align_up(10, 3), 12);
}

#[test]
fn align_down_rounds_to_previous_multiple() {
    assert_eq!(align_down(4097, PAGE_SIZE), 4096);
    assert_eq!(align_down(4096, PAGE_SIZE), 4096);
    assert_eq!(align_down(4095, PAGE_SIZE), 0);
    assert_eq!(align_down(31, STANDARD_ALIGN), 16);
}

#[test]
fn address_space_of_an_address() {
    assert_eq!(get_addr_space(0x0000_0345_1234_5678), 0x0000_0300_0000_0000);
    assert_eq!(get_addr_space(FIRST_ADDR_SPACE_START), FIRST_ADDR_SPACE_START);
    assert_eq!(get_address_space_id(0x0000_0345_1234_5678), 3);
    assert_eq!(get_address_space_id(0x0000_7fff_ffff_ffff), 127);
    assert_eq!(get_address_space_for_id(3), FIRST_ADDR_SPACE_START);
    assert_eq!(get_address_space_for_id(127), 0x0000_7f00_0000_0000);
}

#[test]
fn address_space_round_trip() {
    for id in [0u64, 1, 3, 77, 127, 0xff_ffff] {
        assert_eq!(get_address_space_id(get_address_space_for_id(id)), id);
    }
    // the shift drops the bits above 2^24
    assert_eq!(get_address_space_for_id(0x100_0003), FIRST_ADDR_SPACE_START);
}

#[test]
fn small_and_large_halves() {
    assert!(is_small_addr(FIRST_ADDR_SPACE_START));
    assert!(is_small_addr(FIRST_ADDR_SPACE_START + LARGE_ADDR_SPACE_OFFSET - 1));
    assert!(!is_small_addr(FIRST_ADDR_SPACE_START + LARGE_ADDR_SPACE_OFFSET));
    assert!(!is_small_addr(FIRST_ADDR_SPACE_START + 2 * LARGE_ADDR_SPACE_OFFSET - 1));
    assert!(is_small_addr(0));
}

#[test]
fn constants_relate() {
    assert_eq!(POOL_SIZE, 2 * PAGE_SIZE);
    assert_eq!(TANK_SIZE, 512 * POOL_SIZE);
}
