use kernel_mm::address::{PhysPageNum, VirtAddr, VirtPageNum};
use kernel_mm::elf::{ElfImage, ProgramHeader};
use kernel_mm::frame_allocator::StackFrameAllocator;
use kernel_mm::map_area::{MapArea, MapPermission, MapType};
use kernel_mm::memory_set::{KernelLayout, MemorySet, TRAMPOLINE_VPN};
use kernel_mm::page_table::PageTable;
use kernel_mm::phys_memory::PhysMemory;

fn machine(frames: usize) -> (StackFrameAllocator, PhysMemory) {
    let mem = PhysMemory::new(PhysPageNum(0x100), frames);
    let mut pool = StackFrameAllocator::new();
    pool.init(PhysPageNum(0x100), PhysPageNum(0x100 + frames as u64));
    (pool, mem)
}

fn perm(bits: u8) -> MapPermission {
    MapPermission { bits }
}

#[test]
fn permission_is_four_bits() {
    assert_eq!(
        [MapPermission::R, MapPermission::W, MapPermission::X, MapPermission::U],
        [2, 4, 8, 16]
    );
    assert_eq!(MapPermission::of(0xff).bits(), 0x1e);
    assert_eq!(MapPermission::of(0x06), perm(0x06));
    assert_eq!(perm(2).union(perm(4)), perm(6));
    assert!(perm(6).contains(perm(4)));
    assert!(!perm(6).contains(perm(8)));
}

#[test]
fn region_covers_the_pages_of_its_addresses() {
    let area = MapArea::new(VirtAddr(0x1234), VirtAddr(0x3001), MapType::Framed, perm(0x16));
    assert_eq!(area.start_vpn(), VirtPageNum(1));
    assert_eq!(area.end_vpn(), VirtPageNum(4));
    assert_eq!(area.map_type(), MapType::Framed);
    assert_eq!(area.map_perm(), perm(0x16));
    let copy = MapArea::from_another(&area);
    assert_eq!(copy.start_vpn(), VirtPageNum(1));
    assert_eq!(copy.end_vpn(), VirtPageNum(4));
    assert_eq!(copy.map_perm(), perm(0x16));
    let empty = MapArea::new(VirtAddr(0x2000), VirtAddr(0x2000), MapType::Identical, perm(2));
    assert_eq!(empty.start_vpn(), empty.end_vpn());
}

#[test]
fn region_maps_and_unmaps_its_pages() {
    let (mut pool, mut mem) = machine(16);
    let mut table = PageTable::new(&mut pool, &mut mem);
    let mut area = MapArea::new(VirtAddr(0x1ff000), VirtAddr(0x201000), MapType::Framed, perm(0x06));
    area.map(&mut table, &mut pool, &mut mem);
    // the pages 0x1ff and 0x200 lie in two groups of 512 pages
    assert_eq!(table.frame_count(), 4);
    assert_eq!(pool.available(), 16 - 4 - 2);
    let first = table.translate(VirtPageNum(0x1ff), &mem).unwrap();
    let second = table.translate(VirtPageNum(0x200), &mem).unwrap();
    // the frame of a page is taken before the frames of the table for it
    assert_eq!(first.bits, (0x101 << 10) | 7);
    assert_eq!(second.bits, (0x104 << 10) | 7);
    let data: Vec<u8> = (0..5000u32).map(|i| (i % 251) as u8 + 1).collect();
    area.copy_data(&table, &pool, &mut mem, &data);
    assert_eq!(mem.read_byte(PhysPageNum(0x101), 0), 1);
    assert_eq!(mem.read_byte(PhysPageNum(0x101), 4095), (4095 % 251) as u8 + 1);
    assert_eq!(mem.read_byte(PhysPageNum(0x104), 0), (4096 % 251) as u8 + 1);
    assert_eq!(mem.read_byte(PhysPageNum(0x104), 903), (4999 % 251) as u8 + 1);
    assert_eq!(mem.read_byte(PhysPageNum(0x104), 904), 0);
    area.unmap(&mut table, &mut pool, &mut mem);
    assert!(!table.translate(VirtPageNum(0x1ff), &mem).unwrap().is_valid());
    assert!(!table.translate(VirtPageNum(0x200), &mem).unwrap().is_valid());
    assert_eq!(pool.available(), 16 - 4);
    // the frames came back in the order of the pages
    assert_eq!(pool.allocate(), Some(PhysPageNum(0x104)));
    assert_eq!(pool.allocate(), Some(PhysPageNum(0x101)));
}

#[test]
fn identical_region_maps_each_page_to_its_own_number() {
    let (mut pool, mut mem) = machine(16);
    let mut table = PageTable::new(&mut pool, &mut mem);
    let mut area = MapArea::new(VirtAddr(0x8020_0000), VirtAddr(0x8020_2001), MapType::Identical, perm(0x0a));
    area.map(&mut table, &mut pool, &mut mem);
    assert_eq!(table.frame_count(), 3);
    for vpn in 0x80200..0x80203u64 {
        let pte = table.translate(VirtPageNum(vpn), &mem).unwrap();
        assert_eq!(pte.bits, (vpn << 10) | 0x0b);
    }
    assert!(!table.translate(VirtPageNum(0x80203), &mem).unwrap().is_valid());
}

#[test]
fn address_space_gains_and_loses_regions() {
    let (mut pool, mut mem) = machine(32);
    let mut space = MemorySet::new(&mut pool, &mut mem);
    assert_eq!(space.area_count(), 0);
    assert_eq!(space.satp(), (8u64 << 60) | 0x100);
    assert_eq!(space.page_table().root_ppn(), PhysPageNum(0x100));
    space.insert_framed_areas(VirtAddr(0x1000), VirtAddr(0x3000), perm(0x06), &mut pool, &mut mem);
    space.insert_framed_areas(VirtAddr(0x5000), VirtAddr(0x5800), perm(0x02), &mut pool, &mut mem);
    assert_eq!(space.area_count(), 2);
    assert_eq!(space.area(0).start_vpn(), VirtPageNum(1));
    assert_eq!(space.area(0).end_vpn(), VirtPageNum(3));
    assert_eq!(space.area(1).start_vpn(), VirtPageNum(5));
    assert_eq!(space.area(1).map_perm(), perm(0x02));
    assert_eq!(space.translate(VirtPageNum(1), &mem).unwrap().bits, (0x101 << 10) | 7);
    assert_eq!(space.translate(VirtPageNum(2), &mem).unwrap().bits, (0x104 << 10) | 7);
    assert_eq!(space.translate(VirtPageNum(5), &mem).unwrap().bits, (0x105 << 10) | 3);
    assert!(!space.translate(VirtPageNum(3), &mem).unwrap().is_valid());
    let left = pool.available();
    // no region starts at page 2
    space.remove_areas(VirtPageNum(2), &mut pool, &mut mem);
    assert_eq!(space.area_count(), 2);
    assert_eq!(pool.available(), left);
    space.remove_areas(VirtPageNum(1), &mut pool, &mut mem);
    assert_eq!(space.area_count(), 1);
    assert_eq!(space.area(0).start_vpn(), VirtPageNum(5));
    assert!(!space.translate(VirtPageNum(1), &mem).unwrap().is_valid());
    assert!(!space.translate(VirtPageNum(2), &mem).unwrap().is_valid());
    assert_eq!(space.translate(VirtPageNum(5), &mem).unwrap().bits, (0x105 << 10) | 3);
    assert_eq!(pool.available(), left + 2);
    space.clear(&mut pool, &mem);
    assert_eq!(space.area_count(), 0);
    assert_eq!(pool.available(), left + 3);
    // the page table keeps what it maps
    assert_eq!(space.translate(VirtPageNum(5), &mem).unwrap().bits, (0x105 << 10) | 3);
}

#[test]
fn kernel_space_maps_its_sections_to_themselves() {
    let (mut pool, mut mem) = machine(128);
    let layout = KernelLayout {
        stext: 0x8020_0000,
        etext: 0x8020_3000,
        srodata: 0x8020_3000,
        erodata: 0x8020_4000,
        sdata: 0x8020_4000,
        edata: 0x8020_5000,
        sbss_with_stack: 0x8020_5000,
        ebss: 0x8021_5000,
        ekernel: 0x8021_5000,
        strampoline: 0x8020_1000,
    };
    let space = MemorySet::init_kernel(&layout, &mut pool, &mut mem);
    assert_eq!(space.area_count(), 6);
    let expect = [
        (0x80200u64, 0x80203u64, 0x0au8),
        (0x80203, 0x80204, 0x02),
        (0x80204, 0x80205, 0x06),
        (0x80205, 0x80215, 0x06),
        (0x80215, 0x88000, 0x06),
        (0x10000, 0x10001, 0x06),
    ];
    for (i, &(start, end, bits)) in expect.iter().enumerate() {
        let area = space.area(i);
        assert_eq!(area.start_vpn(), VirtPageNum(start));
        assert_eq!(area.end_vpn(), VirtPageNum(end));
        assert_eq!(area.map_type(), MapType::Identical);
        assert_eq!(area.map_perm(), perm(bits));
        for vpn in [start, end - 1] {
            let pte = space.translate(VirtPageNum(vpn), &mem).unwrap();
            assert_eq!(pte.bits, (vpn << 10) | bits as u64 | 1);
        }
    }
    let pte = space.translate(VirtPageNum(TRAMPOLINE_VPN), &mem).unwrap();
    assert_eq!(pte.bits, (0x80201 << 10) | 0x0b);
    assert!(space.translate(VirtPageNum(0x7ff_fffe), &mem).map_or(true, |pte| !pte.is_valid()));
    // the root, two frames for the trampoline, and the frames of the lower
    // levels for the sections
    assert_eq!(space.page_table().frame_count() as u64 + pool.available(), 128);
    assert!(space.page_table().frame_count() <= 3 + 2 + 64 + 2);
}

#[test]
fn user_space_is_built_from_the_segments() {
    let (mut pool, mut mem) = machine(64);
    let mut data = vec![0u8; 0x3000];
    for (i, b) in data.iter_mut().enumerate() {
        *b = (i % 255) as u8 + 1;
    }
    let image = ElfImage {
        entry: 0x1_0040,
        headers: vec![
            ProgramHeader {
                load: false,
                virtual_addr: 0,
                mem_size: 0,
                offset: 0,
                file_size: 0,
                read: false,
                write: false,
                execute: false,
            },
            ProgramHeader {
                load: true,
                virtual_addr: 0x1_0000,
                mem_size: 0x1800,
                offset: 0x1000,
                file_size: 0x1800,
                read: true,
                write: false,
                execute: true,
            },
            ProgramHeader {
                load: true,
                virtual_addr: 0x1_2000,
                mem_size: 0x2000,
                offset: 0x2800,
                file_size: 0x10,
                read: true,
                write: true,
                execute: false,
            },
        ],
    };
    let (space, user_sp, entry) = MemorySet::from_elf(&image, &data, 0x8020_1000, &mut pool, &mut mem);
    assert_eq!(entry, 0x1_0040);
    // the last segment ends before page 0x14; a guard page; two pages of stack
    assert_eq!(user_sp, 0x1_7000);
    assert_eq!(space.area_count(), 4);
    let expect = [
        (0x10u64, 0x12u64, 0x1au8),
        (0x12, 0x14, 0x16),
        (0x15, 0x17, 0x16),
        (0x7ff_fffe, 0x7ff_ffff, 0x06),
    ];
    for (i, &(start, end, bits)) in expect.iter().enumerate() {
        let area = space.area(i);
        assert_eq!(area.start_vpn(), VirtPageNum(start));
        assert_eq!(area.end_vpn(), VirtPageNum(end));
        assert_eq!(area.map_type(), MapType::Framed);
        assert_eq!(area.map_perm(), perm(bits));
        for vpn in start..end {
            let pte = space.translate(VirtPageNum(vpn), &mem).unwrap();
            assert!(pte.is_valid());
            assert_eq!(pte.flags().bits(), bits | 1);
        }
    }
    assert!(!space.translate(VirtPageNum(0x14), &mem).unwrap().is_valid());
    let tramp = space.translate(VirtPageNum(TRAMPOLINE_VPN), &mem).unwrap();
    assert_eq!(tramp.bits, (0x80201 << 10) | 0x0b);
    // the frames hold the bytes of the file, and zeroes after them
    let text0 = space.translate(VirtPageNum(0x10), &mem).unwrap().ppn();
    let text1 = space.translate(VirtPageNum(0x11), &mem).unwrap().ppn();
    assert_eq!(mem.read_byte(text0, 0), data[0x1000]);
    assert_eq!(mem.read_byte(text0, 4095), data[0x1fff]);
    assert_eq!(mem.read_byte(text1, 0), data[0x2000]);
    assert_eq!(mem.read_byte(text1, 0x7ff), data[0x27ff]);
    assert_eq!(mem.read_byte(text1, 0x800), 0);
    let data0 = space.translate(VirtPageNum(0x12), &mem).unwrap().ppn();
    assert_eq!(mem.read_byte(data0, 0xf), data[0x280f]);
    assert_eq!(mem.read_byte(data0, 0x10), 0);
    let stack = space.translate(VirtPageNum(0x16), &mem).unwrap().ppn();
    assert_eq!(mem.read_byte(stack, 0), 0);
}

#[test]
fn user_space_without_segments_has_a_stack_above_the_first_page() {
    let (mut pool, mut mem) = machine(32);
    let image = ElfImage { entry: 7, headers: vec![] };
    let (space, user_sp, entry) = MemorySet::from_elf(&image, &[], 0x8020_1000, &mut pool, &mut mem);
    assert_eq!((user_sp, entry), (0x3000, 7));
    assert_eq!(space.area_count(), 2);
    assert_eq!(space.area(0).start_vpn(), VirtPageNum(1));
    assert_eq!(space.area(0).end_vpn(), VirtPageNum(3));
}

#[test]
fn cloned_space_has_frames_of_its_own_with_the_same_bytes() {
    let (mut pool, mut mem) = machine(64);
    let mut parent = MemorySet::new(&mut pool, &mut mem);
    parent.map_trampoline(0x8020_1000, &mut pool, &mut mem);
    parent.insert_framed_areas(VirtAddr(0x1_0000), VirtAddr(0x1_2000), perm(0x16), &mut pool, &mut mem);
    parent.insert_framed_areas(VirtAddr(0x4_0000), VirtAddr(0x4_1000), perm(0x12), &mut pool, &mut mem);
    let origin0 = parent.translate(VirtPageNum(0x10), &mem).unwrap().ppn();
    let origin1 = parent.translate(VirtPageNum(0x11), &mem).unwrap().ppn();
    let origin2 = parent.translate(VirtPageNum(0x40), &mem).unwrap().ppn();
    mem.write_byte(origin0, 0, 11);
    mem.write_byte(origin1, 4095, 22);
    mem.write_word(origin2, 100, 0xdead_beef);
    let child = MemorySet::copy_from_user(&parent, 0x8020_1000, &mut pool, &mut mem);
    assert_eq!(child.area_count(), 2);
    assert_ne!(child.satp(), parent.satp());
    for i in 0..2 {
        assert_eq!(child.area(i).start_vpn(), parent.area(i).start_vpn());
        assert_eq!(child.area(i).end_vpn(), parent.area(i).end_vpn());
        assert_eq!(child.area(i).map_perm(), parent.area(i).map_perm());
        assert_eq!(child.area(i).map_type(), MapType::Framed);
    }
    let c0 = child.translate(VirtPageNum(0x10), &mem).unwrap();
    let c1 = child.translate(VirtPageNum(0x11), &mem).unwrap();
    let c2 = child.translate(VirtPageNum(0x40), &mem).unwrap();
    assert_eq!(c0.flags().bits(), 0x17);
    assert_eq!(c2.flags().bits(), 0x13);
    assert!(c0.ppn() != origin0 && c1.ppn() != origin1 && c2.ppn() != origin2);
    assert_eq!(mem.read_byte(c0.ppn(), 0), 11);
    assert_eq!(mem.read_byte(c1.ppn(), 4095), 22);
    assert_eq!(mem.read_word(c2.ppn(), 100), 0xdead_beef);
    // the two spaces do not share what is written later
    mem.write_byte(c0.ppn(), 0, 99);
    assert_eq!(mem.read_byte(origin0, 0), 11);
    assert_eq!(
        child.translate(VirtPageNum(TRAMPOLINE_VPN), &mem),
        parent.translate(VirtPageNum(TRAMPOLINE_VPN), &mem)
    );
}
