use kernel_mm::arena::Arena;
use kernel_mm::buddy_allocator::BuddyAllocator;
use kernel_mm::heap_allocator::LockedBuddyHeap;

fn free_sizes(heap: &BuddyAllocator, mem: &Arena) -> Vec<(usize, usize)> {
    let mut out = Vec::new();
    for rank in 0..32 {
        for addr in heap.free_blocks(mem, rank) {
            out.push((addr, 1usize << rank));
        }
    }
    out
}

#[test]
fn empty_heap_has_nothing() {
    let mem = Arena::new(0x1000, 0x4000);
    let heap = BuddyAllocator::empty(8);
    assert_eq!(heap.unit_size(), 8);
    assert_eq!(heap.total_bytes(), 0);
    assert_eq!(heap.allocated_bytes(), 0);
    assert_eq!(heap.user_bytes(), 0);
    assert_eq!(free_sizes(&heap, &mem), vec![]);
    assert!(!heap.can_alloc(&mem, 8, 8));
}

#[test]
fn region_of_four_pages_is_one_block() {
    let mut mem = Arena::new(0x1000, 0x4000);
    let mut heap = BuddyAllocator::empty(0x1000);
    heap.add_to_heap(&mut mem, 0x1000, 0x5000);
    assert_eq!(free_sizes(&heap, &mem), vec![(0x1000, 0x4000)]);
    assert_eq!(heap.total_bytes(), 0x4000);
    assert_eq!(heap.free_bytes(&mem), 0x4000);
}

#[test]
fn region_is_cut_into_one_block_for_each_bit_of_its_length() {
    let mut mem = Arena::new(0x1000, 0x8000);
    let mut heap = BuddyAllocator::empty(8);
    heap.add_to_heap(&mut mem, 0x1000, 0x4008);
    // 0x3008 bytes: 8, then 0x1000, then 0x2000
    assert_eq!(
        free_sizes(&heap, &mem),
        vec![(0x1000, 8), (0x1008, 0x1000), (0x2008, 0x2000)]
    );
    assert_eq!(heap.total_bytes(), 0x3008);
}

#[test]
fn region_is_narrowed_to_whole_units() {
    let mut mem = Arena::new(0x1000, 0x8000);
    let mut heap = BuddyAllocator::empty(0x1000);
    heap.add_to_heap(&mut mem, 0x1008, 0x3ff8);
    assert_eq!(free_sizes(&heap, &mem), vec![(0x2000, 0x1000)]);
    assert_eq!(heap.total_bytes(), 0x1000);
    // a range without a whole unit adds nothing
    heap.add_to_heap(&mut mem, 0x4008, 0x4ff8);
    assert_eq!(heap.total_bytes(), 0x1000);
    assert_eq!(free_sizes(&heap, &mem), vec![(0x2000, 0x1000)]);
}

#[test]
fn two_pages_out_of_four_leave_the_upper_half() {
    let mut mem = Arena::new(0x1000, 0x4000);
    let mut heap = BuddyAllocator::empty(0x1000);
    heap.add_to_heap(&mut mem, 0x1000, 0x5000);
    assert!(heap.can_alloc(&mem, 0x1000, 8));
    let a = heap.allocate(&mut mem, 0x1000, 8);
    let b = heap.allocate(&mut mem, 0x1000, 8);
    assert_eq!(a, 0x1000);
    assert_eq!(b, 0x2000);
    assert_eq!(free_sizes(&heap, &mem), vec![(0x3000, 0x2000)]);
    assert_eq!(heap.allocated_bytes(), 0x2000);
    assert_eq!(heap.user_bytes(), 0x2000);
    heap.dealloc(&mut mem, a, 0x1000, 8);
    heap.dealloc(&mut mem, b, 0x1000, 8);
    let total: usize = free_sizes(&heap, &mem).iter().map(|b| b.1).sum();
    assert_eq!(total, 0x4000);
    assert_eq!(heap.free_bytes(&mem), 0x4000);
    assert_eq!(heap.allocated_bytes(), 0);
    assert_eq!(heap.user_bytes(), 0);
}

#[test]
fn aligned_region_coalesces_to_one_block() {
    let mut mem = Arena::new(0x4000, 0x4000);
    let mut heap = BuddyAllocator::new(0x1000, &mut mem, 0x4000, 0x8000);
    assert_eq!(free_sizes(&heap, &mem), vec![(0x4000, 0x4000)]);
    let a = heap.allocate(&mut mem, 0x1000, 8);
    let b = heap.allocate(&mut mem, 0x1000, 8);
    let c = heap.allocate(&mut mem, 0x2000, 8);
    assert_eq!((a, b, c), (0x4000, 0x5000, 0x6000));
    assert_eq!(free_sizes(&heap, &mem), vec![]);
    assert!(!heap.can_alloc(&mem, 0x1000, 8));
    heap.dealloc(&mut mem, b, 0x1000, 8);
    assert_eq!(free_sizes(&heap, &mem), vec![(0x5000, 0x1000)]);
    heap.dealloc(&mut mem, c, 0x2000, 8);
    assert_eq!(free_sizes(&heap, &mem), vec![(0x5000, 0x1000), (0x6000, 0x2000)]);
    heap.dealloc(&mut mem, a, 0x1000, 8);
    assert_eq!(free_sizes(&heap, &mem), vec![(0x4000, 0x4000)]);
    assert_eq!(heap.allocated_bytes(), 0);
}

#[test]
fn block_has_the_size_of_its_class_and_is_aligned_to_it() {
    let mut mem = Arena::new(0x10000, 0x10000);
    let mut heap = BuddyAllocator::new(8, &mut mem, 0x10000, 0x20000);
    let cases: [(usize, usize, usize); 6] =
        [(1, 1, 8), (8, 8, 8), (9, 8, 16), (24, 64, 64), (100, 8, 128), (4096, 4096, 4096)];
    for (size, align, class) in cases {
        let before = heap.allocated_bytes();
        let addr = heap.allocate(&mut mem, size, align);
        assert_eq!(heap.allocated_bytes() - before, class);
        assert_eq!(addr % class, 0);
        assert_eq!(addr % align, 0);
    }
    assert_eq!(heap.user_bytes(), 1 + 8 + 9 + 24 + 100 + 4096);
}

#[test]
fn heap_of_a_user_program_serves_and_takes_back() {
    let mut heap = LockedBuddyHeap::new(8);
    assert!(!heap.can_alloc(8, 8));
    heap.add_to_heap(0x20000, 0x28000);
    assert_eq!(heap.free_bytes(), 0x8000);
    assert_eq!(heap.free_blocks(15), vec![0x20000]);
    let a = heap.allocate(24, 8);
    assert_eq!(a, 0x20000);
    let b = heap.allocate(24, 8);
    assert_eq!(b, 0x20020);
    assert_eq!(heap.free_bytes(), 0x8000 - 64);
    heap.dealloc(a, 24, 8);
    heap.dealloc(b, 24, 8);
    assert_eq!(heap.free_bytes(), 0x8000);
    assert_eq!(heap.free_blocks(15), vec![0x20000]);
}

#[test]
fn heap_takes_a_second_region_beside_the_first() {
    let mut heap = LockedBuddyHeap::new(16);
    heap.add_to_heap(0x20003, 0x2003d);
    // whole units of sixteen bytes: [0x20010, 0x20030)
    assert_eq!(heap.free_bytes(), 0x20);
    assert_eq!(heap.free_blocks(5), vec![0x20010]);
    let a = heap.allocate(16, 16);
    assert_eq!(a, 0x20010);
    heap.add_to_heap(0x10000, 0x10040);
    assert_eq!(heap.free_bytes(), 0x10 + 0x40);
    assert_eq!(heap.free_blocks(4), vec![0x20020]);
    assert_eq!(heap.free_blocks(6), vec![0x10000]);
    let b = heap.allocate(64, 8);
    assert_eq!(b, 0x10000);
    heap.dealloc(a, 16, 16);
    // the two halves at 0x20010 and 0x20020 are no buddies
    assert_eq!(heap.free_blocks(4), vec![0x20010, 0x20020]);
    heap.dealloc(b, 64, 8);
    assert_eq!(heap.free_bytes(), 0x20 + 0x40);
    assert_eq!(heap.free_blocks(6), vec![0x10000]);
}
