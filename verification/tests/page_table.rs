use kernel_mm::address::{PhysAddr, PhysPageNum, VirtAddr, VirtPageNum};
use kernel_mm::frame_allocator::StackFrameAllocator;
use kernel_mm::page_table::{
    translated_byte_buffer, translated_str, ByteSpan, PTEFlags, PageTable, PageTableEntry,
};
use kernel_mm::phys_memory::PhysMemory;

fn machine(frames: usize) -> (StackFrameAllocator, PhysMemory) {
    let mem = PhysMemory::new(PhysPageNum(0x100), frames);
    let mut pool = StackFrameAllocator::new();
    pool.init(PhysPageNum(0x100), PhysPageNum(0x100 + frames as u64));
    (pool, mem)
}

#[test]
fn flags_are_bits() {
    let rw = PTEFlags::of(PTEFlags::R).union(PTEFlags::of(PTEFlags::W));
    assert_eq!(rw.bits(), 0x06);
    assert!(rw.contains(PTEFlags::of(PTEFlags::R)));
    assert!(!rw.contains(PTEFlags::of(PTEFlags::X)));
    assert_eq!(rw.intersection(PTEFlags::of(PTEFlags::W)).bits(), 0x04);
    assert!(PTEFlags::empty().is_empty());
    assert!(!rw.is_empty());
    assert_eq!(PTEFlags::from_bits(0xff), Some(PTEFlags { bits: 0xff }));
    assert_eq!(
        [PTEFlags::V, PTEFlags::R, PTEFlags::W, PTEFlags::X, PTEFlags::U, PTEFlags::G, PTEFlags::A, PTEFlags::D],
        [1, 2, 4, 8, 16, 32, 64, 128]
    );
}

#[test]
fn entry_is_made_of_a_page_number_and_flags() {
    let pte = PageTableEntry::new(PhysPageNum(0x80201), PTEFlags::of(0x0f));
    assert_eq!(pte.bits, (0x80201 << 10) | 0x0f);
    assert_eq!(pte.ppn(), PhysPageNum(0x80201));
    assert_eq!(pte.flags(), PTEFlags { bits: 0x0f });
    assert!(pte.is_valid() && pte.readable() && pte.writable() && pte.executable());
    let pte = PageTableEntry::new(PhysPageNum(0x0fff_ffff_ffff), PTEFlags::of(0x05));
    assert_eq!(pte.ppn(), PhysPageNum(0x0fff_ffff_ffff));
    assert!(pte.is_valid() && !pte.readable() && pte.writable() && !pte.executable());
    let empty = PageTableEntry::empty();
    assert_eq!(empty.bits, 0);
    assert!(!empty.is_valid());
    // bits above the 44th of the page number are lost
    let pte = PageTableEntry::new(PhysPageNum(0x3_0000_0000_0001f), PTEFlags::of(1));
    assert_eq!(pte.ppn(), PhysPageNum(0x1f));
}

#[test]
fn fresh_table_maps_nothing() {
    let (mut pool, mut mem) = machine(8);
    let table = PageTable::new(&mut pool, &mut mem);
    assert_eq!(table.root_ppn(), PhysPageNum(0x100));
    assert_eq!(table.frame_count(), 1);
    assert_eq!(table.to_satp(), (8u64 << 60) | 0x100);
    assert_eq!(table.translate(VirtPageNum(0), &mem), None);
    assert_eq!(table.translate(VirtPageNum(0x7ff_ffff), &mem), None);
    assert_eq!(table.translate_va(VirtAddr(0x1234), &mem), None);
    assert_eq!(pool.available(), 7);
}

#[test]
fn mapped_page_translates_to_its_frame() {
    let (mut pool, mut mem) = machine(8);
    let mut table = PageTable::new(&mut pool, &mut mem);
    let vpn = VirtPageNum((1 << 18) | (2 << 9) | 3);
    table.map(vpn, PhysPageNum(0x80200), PTEFlags::of(PTEFlags::R | PTEFlags::W), &mut pool, &mut mem);
    // two frames for the two lower levels
    assert_eq!(table.frame_count(), 3);
    assert_eq!(pool.available(), 5);
    let pte = table.translate(vpn, &mem).unwrap();
    assert_eq!(pte.ppn(), PhysPageNum(0x80200));
    assert_eq!(pte.flags(), PTEFlags { bits: 0x07 });
    assert!(pte.is_valid());
    // the entries of the upper levels are valid and nothing else
    assert_eq!(mem.read_word(PhysPageNum(0x100), 1), (0x101 << 10) | 1);
    assert_eq!(mem.read_word(PhysPageNum(0x101), 2), (0x102 << 10) | 1);
    assert_eq!(mem.read_word(PhysPageNum(0x102), 3), (0x80200 << 10) | 7);
    // a page that shares the lowest frame is reached but not mapped
    let near = table.translate(VirtPageNum(vpn.0 + 1), &mem).unwrap();
    assert!(!near.is_valid());
    assert_eq!(near.bits, 0);
    // pages elsewhere are not reached
    assert_eq!(table.translate(VirtPageNum(vpn.0 + 512), &mem), None);
    assert_eq!(table.translate(VirtPageNum(3), &mem), None);
    assert_eq!(
        table.translate_va(VirtAddr((vpn.0 << 12) + 0x234), &mem),
        Some(PhysAddr(0x8020_0234))
    );
    // a neighbour takes no new frame
    table.map(VirtPageNum(vpn.0 + 1), PhysPageNum(0x80300), PTEFlags::of(PTEFlags::X), &mut pool, &mut mem);
    assert_eq!(table.frame_count(), 3);
    assert_eq!(table.translate(VirtPageNum(vpn.0 + 1), &mem).unwrap().bits, (0x80300 << 10) | 9);
    assert_eq!(table.translate(vpn, &mem).unwrap().bits, (0x80200 << 10) | 7);
    // a page of another group of 512 takes one
    table.map(VirtPageNum(vpn.0 + 512), PhysPageNum(0x80400), PTEFlags::of(PTEFlags::R), &mut pool, &mut mem);
    assert_eq!(table.frame_count(), 4);
}

#[test]
fn unmapped_page_translates_to_an_invalid_entry() {
    let (mut pool, mut mem) = machine(8);
    let mut table = PageTable::new(&mut pool, &mut mem);
    table.map(VirtPageNum(5), PhysPageNum(0x300), PTEFlags::of(PTEFlags::R), &mut pool, &mut mem);
    table.map(VirtPageNum(6), PhysPageNum(0x301), PTEFlags::of(PTEFlags::R), &mut pool, &mut mem);
    table.unmap(VirtPageNum(5), &pool, &mut mem);
    let pte = table.translate(VirtPageNum(5), &mem).unwrap();
    assert!(!pte.is_valid());
    assert_eq!(pte, PageTableEntry::empty());
    assert_eq!(table.translate(VirtPageNum(6), &mem).unwrap().ppn(), PhysPageNum(0x301));
    // the page can be mapped again
    table.map(VirtPageNum(5), PhysPageNum(0x302), PTEFlags::of(PTEFlags::W), &mut pool, &mut mem);
    assert_eq!(table.translate(VirtPageNum(5), &mem).unwrap().bits, (0x302 << 10) | 5);
    assert_eq!(table.frame_count(), 3);
}

#[test]
fn table_of_a_token_walks_the_same_tree() {
    let (mut pool, mut mem) = machine(8);
    let mut table = PageTable::new(&mut pool, &mut mem);
    table.map(VirtPageNum(5), PhysPageNum(0x104), PTEFlags::of(PTEFlags::R), &mut pool, &mut mem);
    let other = PageTable::from_token(table.to_satp());
    assert_eq!(other.root_ppn(), table.root_ppn());
    assert_eq!(other.frame_count(), 0);
    assert_eq!(other.translate(VirtPageNum(5), &mem), table.translate(VirtPageNum(5), &mem));
    assert_eq!(other.translate(VirtPageNum(900), &mem), None);
    // a token whose root is no frame of the memory leads nowhere
    let stray = PageTable::from_token(0x9999);
    assert_eq!(stray.translate(VirtPageNum(5), &mem), None);
}

#[test]
fn buffer_is_cut_at_the_pages() {
    let (mut pool, mut mem) = machine(8);
    let mut table = PageTable::new(&mut pool, &mut mem);
    table.map(VirtPageNum(0x10), PhysPageNum(0x105), PTEFlags::of(0x16), &mut pool, &mut mem);
    table.map(VirtPageNum(0x11), PhysPageNum(0x104), PTEFlags::of(0x16), &mut pool, &mut mem);
    table.map(VirtPageNum(0x12), PhysPageNum(0x106), PTEFlags::of(0x16), &mut pool, &mut mem);
    let token = table.to_satp();
    assert_eq!(translated_byte_buffer(token, 0x10ff0, 0, &mem), vec![]);
    assert_eq!(
        translated_byte_buffer(token, 0x10ff0, 8, &mem),
        vec![ByteSpan { ppn: PhysPageNum(0x105), start: 0xff0, end: 0xff8 }]
    );
    assert_eq!(
        translated_byte_buffer(token, 0x10ff0, 16, &mem),
        vec![ByteSpan { ppn: PhysPageNum(0x105), start: 0xff0, end: 4096 }]
    );
    assert_eq!(
        translated_byte_buffer(token, 0x10ff0, 0x1011, &mem),
        vec![
            ByteSpan { ppn: PhysPageNum(0x105), start: 0xff0, end: 4096 },
            ByteSpan { ppn: PhysPageNum(0x104), start: 0, end: 4096 },
            ByteSpan { ppn: PhysPageNum(0x106), start: 0, end: 1 },
        ]
    );
    assert_eq!(
        translated_byte_buffer(token, 0x11000, 0x1000, &mem),
        vec![ByteSpan { ppn: PhysPageNum(0x104), start: 0, end: 4096 }]
    );
}

#[test]
fn string_ends_at_the_first_zero_byte() {
    let (mut pool, mut mem) = machine(8);
    let mut table = PageTable::new(&mut pool, &mut mem);
    table.map(VirtPageNum(0x10), PhysPageNum(0x105), PTEFlags::of(0x16), &mut pool, &mut mem);
    table.map(VirtPageNum(0x11), PhysPageNum(0x104), PTEFlags::of(0x16), &mut pool, &mut mem);
    let text = b"initproc";
    // the string crosses from one page, and one frame, to the next
    for (i, &b) in text.iter().enumerate() {
        let va = 0x10ffc + i;
        let (ppn, off) = if va < 0x11000 { (0x105, va - 0x10000) } else { (0x104, va - 0x11000) };
        mem.write_byte(PhysPageNum(ppn), off, b);
    }
    let token = table.to_satp();
    assert_eq!(translated_str(token, 0x10ffc, &mem), "initproc");
    assert_eq!(translated_str(token, 0x10ffe, &mem), "itproc");
    assert_eq!(translated_str(token, 0x11004, &mem), "");
    assert_eq!(translated_str(token, 0x10000, &mem), "");
}
