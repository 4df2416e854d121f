use kernel_mm::address::PhysPageNum;
use kernel_mm::frame_allocator::{
    frame_alloc, frame_dealloc, init_frame_allocator, FrameTracker, StackFrameAllocator,
};
use kernel_mm::phys_memory::PhysMemory;

#[test]
fn memory_reads_what_was_written() {
    let mut mem = PhysMemory::new(PhysPageNum(0x100), 4);
    assert!(mem.holds(PhysPageNum(0x100)));
    assert!(mem.holds(PhysPageNum(0x103)));
    assert!(!mem.holds(PhysPageNum(0x104)));
    assert!(!mem.holds(PhysPageNum(0xff)));
    assert_eq!(mem.read_word(PhysPageNum(0x101), 7), 0);
    mem.write_word(PhysPageNum(0x101), 7, 0x1122_3344_5566_7788);
    assert_eq!(mem.read_word(PhysPageNum(0x101), 7), 0x1122_3344_5566_7788);
    assert_eq!(mem.read_word(PhysPageNum(0x101), 6), 0);
    assert_eq!(mem.read_word(PhysPageNum(0x102), 7), 0);
    // the lowest byte of a word comes first
    assert_eq!(mem.read_byte(PhysPageNum(0x101), 56), 0x88);
    assert_eq!(mem.read_byte(PhysPageNum(0x101), 57), 0x77);
    assert_eq!(mem.read_byte(PhysPageNum(0x101), 63), 0x11);
    mem.write_byte(PhysPageNum(0x101), 58, 0xab);
    assert_eq!(mem.read_word(PhysPageNum(0x101), 7), 0x1122_3344_55ab_7788);
    assert_eq!(mem.read_byte(PhysPageNum(0x101), 58), 0xab);
    assert_eq!(mem.read_byte(PhysPageNum(0x101), 59), 0x55);
}

#[test]
fn frames_are_zeroed_and_copied() {
    let mut mem = PhysMemory::new(PhysPageNum(0x100), 4);
    for i in 0..512 {
        mem.write_word(PhysPageNum(0x101), i, i as u64 + 1);
    }
    mem.copy_frame(PhysPageNum(0x103), PhysPageNum(0x101));
    for i in 0..512 {
        assert_eq!(mem.read_word(PhysPageNum(0x103), i), i as u64 + 1);
        assert_eq!(mem.read_word(PhysPageNum(0x101), i), i as u64 + 1);
    }
    mem.zero_frame(PhysPageNum(0x101));
    for i in 0..512 {
        assert_eq!(mem.read_word(PhysPageNum(0x101), i), 0);
    }
    assert_eq!(mem.read_word(PhysPageNum(0x103), 511), 512);
    let frame = FrameTracker::new(PhysPageNum(0x103), &mut mem);
    assert_eq!(frame.ppn, PhysPageNum(0x103));
    assert_eq!(mem.read_word(PhysPageNum(0x103), 511), 0);
    assert_eq!(mem.read_byte(PhysPageNum(0x103), 4095), 0);
}

#[test]
fn frames_are_issued_in_order_and_the_last_that_came_back_first() {
    let mut pool = StackFrameAllocator::new();
    assert_eq!(pool.available(), 0);
    assert_eq!(pool.allocate(), None);
    pool.init(PhysPageNum(0x100), PhysPageNum(0x104));
    assert_eq!(pool.available(), 4);
    assert!(!pool.is_allocated(PhysPageNum(0x100)));
    assert_eq!(pool.allocate(), Some(PhysPageNum(0x100)));
    assert_eq!(pool.allocate(), Some(PhysPageNum(0x101)));
    assert_eq!(pool.allocate(), Some(PhysPageNum(0x102)));
    assert!(pool.is_allocated(PhysPageNum(0x101)));
    assert!(!pool.is_allocated(PhysPageNum(0x103)));
    assert!(!pool.is_allocated(PhysPageNum(0xff)));
    assert_eq!(pool.available(), 1);
    pool.dealloc(PhysPageNum(0x100));
    pool.dealloc(PhysPageNum(0x102));
    assert!(!pool.is_allocated(PhysPageNum(0x100)));
    assert!(!pool.is_allocated(PhysPageNum(0x102)));
    assert!(pool.is_allocated(PhysPageNum(0x101)));
    assert_eq!(pool.available(), 3);
    assert_eq!(pool.allocate(), Some(PhysPageNum(0x102)));
    assert_eq!(pool.allocate(), Some(PhysPageNum(0x100)));
    assert_eq!(pool.allocate(), Some(PhysPageNum(0x103)));
    assert_eq!(pool.allocate(), None);
    assert_eq!(pool.available(), 0);
}

#[test]
fn frame_comes_zeroed_from_the_pool() {
    let mut mem = PhysMemory::new(PhysPageNum(0x100), 2);
    let mut pool = StackFrameAllocator::new();
    pool.init(PhysPageNum(0x100), PhysPageNum(0x102));
    mem.write_word(PhysPageNum(0x100), 3, 99);
    let frame = frame_alloc(&mut pool, &mut mem).unwrap();
    assert_eq!(frame.ppn, PhysPageNum(0x100));
    assert_eq!(mem.read_word(PhysPageNum(0x100), 3), 0);
    mem.write_word(PhysPageNum(0x100), 3, 5);
    frame_dealloc(&mut pool, frame.ppn);
    let again = frame_alloc(&mut pool, &mut mem).unwrap();
    assert_eq!(again.ppn, PhysPageNum(0x100));
    assert_eq!(mem.read_word(PhysPageNum(0x100), 3), 0);
    assert!(frame_alloc(&mut pool, &mut mem).is_some());
    assert!(frame_alloc(&mut pool, &mut mem).is_none());
}

#[test]
fn pool_lies_between_the_kernel_and_the_end_of_memory() {
    let mut pool = StackFrameAllocator::new();
    init_frame_allocator(&mut pool, 0x8020_0001);
    assert_eq!(pool.available(), 0x88000 - 0x80201);
    assert_eq!(pool.allocate(), Some(PhysPageNum(0x80201)));
    let mut pool = StackFrameAllocator::new();
    init_frame_allocator(&mut pool, 0x8020_0000);
    assert_eq!(pool.allocate(), Some(PhysPageNum(0x80200)));
}
