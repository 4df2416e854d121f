use kernel_mm::address::{PhysPageNum, VirtAddr, VirtPageNum};
use kernel_mm::elf::{ElfImage, ProgramHeader};
use kernel_mm::frame_allocator::StackFrameAllocator;
use kernel_mm::map_area::{span_frame_count, MapArea, MapPermission, MapType};
use kernel_mm::memory_set::{KernelLayout, MemorySet};
use kernel_mm::phys_memory::PhysMemory;

fn segment(virtual_addr: u64, mem_size: u64, offset: u64, file_size: u64) -> ProgramHeader {
    ProgramHeader {
        load: true,
        virtual_addr,
        mem_size,
        offset,
        file_size,
        read: true,
        write: false,
        execute: false,
    }
}

#[test]
fn frames_of_a_range_of_pages() {
    assert_eq!(span_frame_count(5, 5), 0);
    assert_eq!(span_frame_count(9, 5), 0);
    assert_eq!(span_frame_count(5, 6), 2);
    assert_eq!(span_frame_count(0, 512), 2);
    assert_eq!(span_frame_count(0, 513), 3);
    assert_eq!(span_frame_count(511, 513), 3);
    assert_eq!(span_frame_count(0x3ffff, 0x40001), 4);
    assert_eq!(span_frame_count(0x80215, 0x88000), 63 + 1);
    let area = MapArea::new(VirtAddr(0x1ff000), VirtAddr(0x201000), MapType::Framed, MapPermission { bits: 6 });
    assert_eq!(area.frame_count(), 3 + 2);
    let area = MapArea::new(VirtAddr(0x1ff000), VirtAddr(0x201000), MapType::Identical, MapPermission { bits: 6 });
    assert_eq!(area.frame_count(), 3);
}

#[test]
fn segment_must_fit_in_the_file_and_in_the_lower_half() {
    assert!(segment(0x1000, 0x1000, 0, 0x1000).check(0x1000));
    assert!(!segment(0x1000, 0x1000, 1, 0x1000).check(0x1000));
    assert!(!segment(0x1000, 0x1000, 0, 0x1001).check(0x2000));
    assert!(segment(0x1800, 0x1000, 0, 0x2000).check(0x2000));
    assert!(!segment(0x1000, 0, 0, 0).check(0));
    assert!(segment(0x1001, 0, 0, 0).check(0));
    assert!(segment(0x3f_ffff_f000, 0xfff, 0, 0).check(0));
    assert!(!segment(0x3f_ffff_f000, 0x1000, 0, 0).check(0));
    assert!(!segment(u64::MAX, 1, 0, 0).check(0));
    assert!(!segment(0x1000, 0x1000, u64::MAX, 1).check(usize::MAX));
    let mut skipped = segment(u64::MAX, u64::MAX, u64::MAX, u64::MAX);
    skipped.load = false;
    assert!(skipped.check(0));
    assert_eq!(skipped.frame_count(), 0);
    assert_eq!(segment(0x1_0000, 0x1800, 0, 0).frame_count(), 2 + 2);
}

#[test]
fn segments_must_not_share_a_page() {
    let a = segment(0x1_0000, 0x1800, 0, 0);
    let b = segment(0x1_1fff, 1, 0, 0);
    let c = segment(0x1_2000, 0x10, 0, 0);
    assert!(a.overlaps(&b) && b.overlaps(&a));
    assert!(!a.overlaps(&c) && !c.overlaps(&a));
    assert!(a.overlaps(&a));
    let mut off = b;
    off.load = false;
    assert!(!a.overlaps(&off));
    assert!(ElfImage { entry: 0, headers: vec![a, c] }.check(0));
    assert!(ElfImage { entry: 0, headers: vec![c, a] }.check(0));
    assert!(!ElfImage { entry: 0, headers: vec![a, c, b] }.check(0));
    assert!(ElfImage { entry: 0, headers: vec![a, c, off] }.check(0));
    assert!(!ElfImage { entry: 0, headers: vec![a, segment(0, 0x1000, 10, 1)] }.check(10));
    assert!(ElfImage { entry: 0, headers: vec![] }.check(0));
}

#[test]
fn stack_must_have_its_place_above_the_last_segment() {
    // the last segment ends before page 0x12: the stack takes pages 0x13 and 0x14
    let low = segment(0x1_0000, 0x2000, 0, 0);
    assert!(ElfImage { entry: 0, headers: vec![segment(0x1_5000, 1, 0, 0), low] }.check(0));
    assert!(!ElfImage { entry: 0, headers: vec![segment(0x1_4000, 1, 0, 0), low] }.check(0));
    assert!(!ElfImage { entry: 0, headers: vec![segment(0x1_3000, 1, 0, 0), low] }.check(0));
    assert!(ElfImage { entry: 0, headers: vec![segment(0x1_2000, 1, 0, 0), low] }.check(0));
    // no room below the trap context
    assert!(!ElfImage { entry: 0, headers: vec![segment(0x3f_ffff_c000, 0x1000, 0, 0)] }.check(0));
    assert!(ElfImage { entry: 0, headers: vec![segment(0x3f_ffff_b000, 0x1000, 0, 0)] }.check(0));
    let image = ElfImage { entry: 0, headers: vec![low] };
    // root, trampoline, segment, stack, trap context
    assert_eq!(image.frame_count(), 3 + (2 + 2) + (2 + 2) + (2 + 1));
}

#[test]
fn kernel_sections_must_follow_one_another() {
    let good = KernelLayout {
        stext: 0x8020_0000,
        etext: 0x8020_2800,
        srodata: 0x8020_3000,
        erodata: 0x8020_4000,
        sdata: 0x8020_4000,
        edata: 0x8020_5000,
        sbss_with_stack: 0x8020_5000,
        ebss: 0x8021_5000,
        ekernel: 0x8021_5000,
        strampoline: 0x8020_1000,
    };
    assert!(good.check());
    assert_eq!(good.frame_count(), 3 + 2 + 2 + 2 + 2 + 64 + 2);
    assert!(!KernelLayout { srodata: 0x8020_2fff, ..good }.check());
    assert!(!KernelLayout { etext: 0x801f_ffff, ..good }.check());
    assert!(!KernelLayout { strampoline: 0x8020_1008, ..good }.check());
    assert!(!KernelLayout { ekernel: 0x8800_0001, ebss: 0x8021_5000, ..good }.check());
    assert!(!KernelLayout { stext: 0x1000_0fff, ..good }.check());
}

#[test]
fn free_ranges_are_told_from_mapped_ones() {
    let mut mem = PhysMemory::new(PhysPageNum(0x100), 32);
    let mut pool = StackFrameAllocator::new();
    pool.init(PhysPageNum(0x100), PhysPageNum(0x120));
    let mut space = MemorySet::new(&mut pool, &mut mem);
    assert!(space.range_is_free(VirtPageNum(0), VirtPageNum(0x1000), &mem));
    space.insert_framed_areas(VirtAddr(0x5000), VirtAddr(0x7000), MapPermission { bits: 6 }, &mut pool, &mut mem);
    assert!(space.range_is_free(VirtPageNum(0), VirtPageNum(5), &mem));
    assert!(!space.range_is_free(VirtPageNum(0), VirtPageNum(6), &mem));
    assert!(!space.range_is_free(VirtPageNum(6), VirtPageNum(7), &mem));
    assert!(space.range_is_free(VirtPageNum(7), VirtPageNum(0x400), &mem));
    assert!(space.range_is_free(VirtPageNum(6), VirtPageNum(6), &mem));
    assert!(space.range_is_free(VirtPageNum(9), VirtPageNum(3), &mem));
    assert_eq!(space.frame_count(&mem, &pool), 2 + 2);
}

#[test]
fn cleared_space_gives_its_frames_back_in_the_order_of_its_regions() {
    let mut mem = PhysMemory::new(PhysPageNum(0x100), 32);
    let mut pool = StackFrameAllocator::new();
    pool.init(PhysPageNum(0x100), PhysPageNum(0x120));
    let mut space = MemorySet::new(&mut pool, &mut mem);
    space.insert_framed_areas(VirtAddr(0x5000), VirtAddr(0x7000), MapPermission { bits: 6 }, &mut pool, &mut mem);
    space.insert_framed_areas(VirtAddr(0x9000), VirtAddr(0xa000), MapPermission { bits: 6 }, &mut pool, &mut mem);
    let a = space.translate(VirtPageNum(5), &mem).unwrap().ppn();
    let b = space.translate(VirtPageNum(6), &mem).unwrap().ppn();
    let c = space.translate(VirtPageNum(9), &mem).unwrap().ppn();
    space.clear(&mut pool, &mem);
    assert_eq!(space.area_count(), 0);
    assert_eq!(pool.allocate(), Some(c));
    assert_eq!(pool.allocate(), Some(b));
    assert_eq!(pool.allocate(), Some(a));
}
