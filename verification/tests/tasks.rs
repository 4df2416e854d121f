use kernel_mm::address::{PhysPageNum, VirtAddr, VirtPageNum};
use kernel_mm::frame_allocator::StackFrameAllocator;
use kernel_mm::kernel_stack::{kernel_stack_position, KernelStack};
use kernel_mm::memory_set::MemorySet;
use kernel_mm::phys_memory::PhysMemory;
use kernel_mm::pid::{pid_alloc, pid_dealloc, PidAllocator, PidHandle};
use kernel_mm::temp_mut::TempMut;
use kernel_mm::up::UPSafeCell;

#[test]
fn kernel_stacks_lie_below_the_trampoline() {
    assert_eq!(
        kernel_stack_position(0),
        (0xffff_ffff_ffff_d000, 0xffff_ffff_ffff_f000)
    );
    assert_eq!(
        kernel_stack_position(1),
        (0xffff_ffff_ffff_a000, 0xffff_ffff_ffff_c000)
    );
    assert_eq!(
        kernel_stack_position(5),
        (0xffff_ffff_ffff_f000 - 5 * 0x3000 - 0x2000, 0xffff_ffff_ffff_f000 - 5 * 0x3000)
    );
    let stack = KernelStack::of(2);
    assert_eq!(stack.get_top(), 0xffff_ffff_ffff_9000);
    assert_eq!(stack.get_bottom(), 0xffff_ffff_ffff_7000);
    assert_eq!(stack.top(), VirtAddr(0x7f_ffff_9000));
}

#[test]
fn kernel_stack_is_a_region_of_the_kernel_space() {
    let mem_frames = 32;
    let mut mem = PhysMemory::new(PhysPageNum(0x100), mem_frames);
    let mut pool = StackFrameAllocator::new();
    pool.init(PhysPageNum(0x100), PhysPageNum(0x100 + mem_frames as u64));
    let mut space = MemorySet::new(&mut pool, &mut mem);
    let stack = KernelStack::new(&PidHandle(1), &mut space, &mut pool, &mut mem);
    assert_eq!(stack.get_top(), 0xffff_ffff_ffff_c000);
    assert_eq!(space.area_count(), 1);
    assert_eq!(space.area(0).start_vpn(), VirtPageNum(0x7ff_fffa));
    assert_eq!(space.area(0).end_vpn(), VirtPageNum(0x7ff_fffc));
    assert_eq!(space.area(0).map_perm().bits(), 0x06);
    assert!(space.translate(VirtPageNum(0x7ff_fffa), &mem).unwrap().is_valid());
    assert!(space.translate(VirtPageNum(0x7ff_fffb), &mem).unwrap().is_valid());
    // the guard page above is not mapped
    assert!(!space.translate(VirtPageNum(0x7ff_fffc), &mem).unwrap().is_valid());
    let left = pool.available();
    stack.release(&mut space, &mut pool, &mut mem);
    assert_eq!(space.area_count(), 0);
    assert_eq!(pool.available(), left + 2);
    assert!(!space.translate(VirtPageNum(0x7ff_fffa), &mem).unwrap().is_valid());
}

#[test]
fn task_numbers_are_issued_in_order_and_the_last_that_came_back_first() {
    let mut pids = PidAllocator::new();
    assert!(!pids.is_allocated(0));
    assert_eq!(pids.allocate().0, 0);
    assert_eq!(pids.allocate().0, 1);
    assert_eq!(pid_alloc(&mut pids).0, 2);
    assert!(pids.is_allocated(1));
    pids.dealloc(0);
    pid_dealloc(&mut pids, 2);
    assert!(!pids.is_allocated(0));
    assert!(!pids.is_allocated(2));
    assert!(pids.is_allocated(1));
    assert!(!pids.is_allocated(3));
    assert_eq!(pids.allocate().0, 2);
    assert_eq!(pids.allocate().0, 0);
    assert_eq!(pids.allocate().0, 3);
}

#[test]
fn cell_gives_one_exclusive_access_at_a_time() {
    let cell = UPSafeCell::new(5u32);
    {
        let mut first = cell.exclusive_access().unwrap();
        *first += 1;
        assert!(cell.exclusive_access().is_none());
    }
    let second = cell.exclusive_access().unwrap();
    assert_eq!(*second, 6);
}

#[test]
fn user_cell_gives_one_exclusive_access_at_a_time() {
    let cell = TempMut::new(vec![1u8, 2]);
    {
        let mut first = cell.lock().unwrap();
        first.push(3);
        assert!(cell.lock().is_none());
    }
    assert_eq!(*cell.lock().unwrap(), vec![1, 2, 3]);
    assert_eq!(*cell.inner.borrow(), vec![1, 2, 3]);
}
