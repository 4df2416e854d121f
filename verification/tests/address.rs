use kernel_mm::address::{PhysAddr, PhysPageNum, VirtAddr, VirtPageNum};
use kernel_mm::range::{vpn_list, Range, RangeIterator, StepByOne};

#[test]
fn addresses_are_cut_to_their_width() {
    assert_eq!(PhysAddr::from(0xffff_ffff_ffff_ffffu64).0, 0x00ff_ffff_ffff_ffff);
    assert_eq!(PhysPageNum::from(0xffff_ffff_ffff_ffffu64).0, 0x0fff_ffff_ffff);
    assert_eq!(VirtAddr::from(0xffff_ffff_ffff_f000u64).0, 0x7f_ffff_f000);
    assert_eq!(VirtPageNum::from(0xffff_ffff_ffff_ffffu64).0, 0x7ff_ffff);
    assert_eq!(PhysAddr::from(0x8020_0000u64).0, 0x8020_0000);
    assert_eq!(VirtAddr::from(0x1_0000u64).0, 0x1_0000);
}

#[test]
fn virtual_addresses_are_sign_extended() {
    assert_eq!(u64::from(VirtAddr(0x3f_ffff_ffff)), 0x3f_ffff_ffff);
    assert_eq!(u64::from(VirtAddr(0x40_0000_0000)), 0xffff_ffc0_0000_0000);
    assert_eq!(u64::from(VirtAddr(0x7f_ffff_f000)), 0xffff_ffff_ffff_f000);
    assert_eq!(u64::from(PhysAddr(0x8020_0000)), 0x8020_0000);
    assert_eq!(u64::from(PhysPageNum(5)), 5);
    assert_eq!(u64::from(VirtPageNum(7)), 7);
}

#[test]
fn floor_and_ceil_of_addresses() {
    assert_eq!(PhysAddr(0).floor(), PhysPageNum(0));
    assert_eq!(PhysAddr(0).ceil(), PhysPageNum(0));
    assert_eq!(PhysAddr(1).ceil(), PhysPageNum(1));
    assert_eq!(PhysAddr(0x1000).floor(), PhysPageNum(1));
    assert_eq!(PhysAddr(0x1000).ceil(), PhysPageNum(1));
    assert_eq!(PhysAddr(0x1001).floor(), PhysPageNum(1));
    assert_eq!(PhysAddr(0x1001).ceil(), PhysPageNum(2));
    assert_eq!(PhysAddr(u64::MAX).ceil(), PhysPageNum(0x10_0000_0000_0000));
    assert_eq!(VirtAddr(0x2fff).floor(), VirtPageNum(2));
    assert_eq!(VirtAddr(0x2fff).ceil(), VirtPageNum(3));
    assert_eq!(VirtAddr(0x3000).ceil(), VirtPageNum(3));
    assert_eq!(VirtAddr(0).ceil(), VirtPageNum(0));
    assert_eq!(PhysAddr(0x1234).page_offset(), 0x234);
    assert_eq!(VirtAddr(0x7f_ffff_ffff).page_offset(), 0xfff);
    assert!(PhysAddr(0x8000).aligned());
    assert!(!PhysAddr(0x8001).aligned());
    assert!(VirtAddr(0).aligned());
    assert!(!VirtAddr(0xfff).aligned());
}

#[test]
fn aligned_address_round_trips_through_its_page_number() {
    for a in [0u64, 0x1000, 0x8020_0000, 0x00ff_ffff_ffff_f000] {
        let pa = PhysAddr(a);
        assert!(pa.aligned());
        assert_eq!(PhysAddr::from(pa.page_number()), pa);
    }
    for a in [0u64, 0x1000, 0x7f_ffff_f000] {
        let va = VirtAddr(a);
        assert!(va.aligned());
        assert_eq!(VirtAddr::from(va.page_number()), va);
    }
    assert_eq!(PhysAddr::from(PhysPageNum(0x80200)), PhysAddr(0x8020_0000));
    assert_eq!(VirtAddr::from(VirtPageNum(0x7ff_ffff)), VirtAddr(0x7f_ffff_f000));
}

#[test]
fn page_number_has_three_indexes() {
    assert_eq!(VirtPageNum(0).indexes(), [0, 0, 0]);
    assert_eq!(VirtPageNum(1).indexes(), [0, 0, 1]);
    assert_eq!(VirtPageNum(512).indexes(), [0, 1, 0]);
    assert_eq!(VirtPageNum(0x40000).indexes(), [1, 0, 0]);
    assert_eq!(VirtPageNum(0x7ff_ffff).indexes(), [511, 511, 511]);
    assert_eq!(VirtPageNum((3 << 18) | (5 << 9) | 7).indexes(), [3, 5, 7]);
    // bits above the 27th do not count
    assert_eq!(VirtPageNum(0x800_0000 + 9).indexes(), [0, 0, 9]);
}

#[test]
fn range_steps_from_its_start_to_its_end() {
    let range = Range::new(VirtPageNum(3), VirtPageNum(6));
    assert_eq!(range.get_start(), VirtPageNum(3));
    assert_eq!(range.get_end(), VirtPageNum(6));
    let mut it = range.into_iter();
    assert_eq!(it.next(), Some(VirtPageNum(3)));
    assert_eq!(it.next(), Some(VirtPageNum(4)));
    assert_eq!(it.next(), Some(VirtPageNum(5)));
    assert_eq!(it.next(), None);
    assert_eq!(it.next(), None);
    let mut it = RangeIterator::new(VirtPageNum(9), VirtPageNum(9));
    assert_eq!(it.next(), None);
    assert_eq!(
        vpn_list(range),
        vec![VirtPageNum(3), VirtPageNum(4), VirtPageNum(5)]
    );
    let mut vpn = VirtPageNum(41);
    vpn.step();
    assert_eq!(vpn, VirtPageNum(42));
    assert_eq!(VirtPageNum(41).next(), VirtPageNum(42));
}
