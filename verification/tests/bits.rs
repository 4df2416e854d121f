use kernel_mm::bits::{block_size, buddy_addr, next_power_of_two, trailing_zeros};

#[test]
fn next_power_of_two_rounds_up() {
    assert_eq!(next_power_of_two(0), 1);
    assert_eq!(next_power_of_two(1), 1);
    assert_eq!(next_power_of_two(2), 2);
    assert_eq!(next_power_of_two(3), 4);
    assert_eq!(next_power_of_two(4096), 4096);
    assert_eq!(next_power_of_two(4097), 8192);
    assert_eq!(next_power_of_two(0x8000_0000), 0x8000_0000);
    for n in 0..2000usize {
        assert_eq!(next_power_of_two(n), n.next_power_of_two());
    }
}

#[test]
fn trailing_zeros_counts_low_zero_bits() {
    assert_eq!(trailing_zeros(1), 0);
    assert_eq!(trailing_zeros(8), 3);
    assert_eq!(trailing_zeros(0x3000), 12);
    assert_eq!(trailing_zeros(0x8000_0000), 31);
    for n in 1..2000usize {
        assert_eq!(trailing_zeros(n) as u32, n.trailing_zeros());
    }
}

#[test]
fn block_size_is_two_to_the_rank() {
    for rank in 0..32usize {
        assert_eq!(block_size(rank), 1usize << rank);
    }
}

#[test]
fn buddy_flips_the_bit_of_the_rank() {
    assert_eq!(buddy_addr(0x1000, 12), 0);
    assert_eq!(buddy_addr(0x2000, 12), 0x3000);
    assert_eq!(buddy_addr(0x3000, 12), 0x2000);
    assert_eq!(buddy_addr(0x4000, 13), 0x6000);
    for addr in (0..0x4000usize).step_by(8) {
        for rank in 3..14usize {
            assert_eq!(buddy_addr(addr, rank), addr ^ (1 << rank));
            assert_eq!(buddy_addr(buddy_addr(addr, rank), rank), addr);
        }
    }
}
