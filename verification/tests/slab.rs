use kernel_mm::arena::Arena;
use kernel_mm::heap_allocator::{UPHeapAllocator, UPSlabHeap};
use kernel_mm::kmem_cache::{map_slab, SlabNode, SlabPtr, SlabTable};

fn kernel_heap() -> UPHeapAllocator {
    let mut heap = UPHeapAllocator::empty();
    heap.init(0x10_0000, 0x10_0000 + 0x8000);
    heap
}

#[test]
fn page_is_cut_into_slots_lowest_first() {
    let mut mem = Arena::new(0x1000, 0x1000);
    let mut node = SlabNode::empty();
    assert_eq!(node.uses, 0);
    assert!(node.prev.is_none() && node.next.is_none());
    node.phy_addr = 0x1000;
    node.rank = 9;
    node.new(&mut mem);
    assert_eq!(
        node.free_pieces.to_vec(&mem),
        vec![0x1000, 0x1200, 0x1400, 0x1600, 0x1800, 0x1a00, 0x1c00, 0x1e00]
    );
    assert_eq!(node.take_piece(&mem), Some(0x1000));
    assert_eq!(node.take_piece(&mem), Some(0x1200));
    assert_eq!(node.uses, 2);
    node.release_piece(&mut mem, 0x1000);
    assert_eq!(node.uses, 1);
    assert_eq!(node.take_piece(&mem), Some(0x1000));
    for _ in 0..6 {
        assert!(node.take_piece(&mem).is_some());
    }
    assert_eq!(node.uses, 8);
    assert_eq!(node.take_piece(&mem), None);
    assert_eq!(node.uses, 8);
}

#[test]
fn page_record_is_found_by_the_address() {
    let table = SlabTable::new(0x10000, 4);
    assert_eq!(table.nodes.len(), 4);
    assert_eq!(table.nodes[2].phy_addr, 0x12000);
    assert!(map_slab(&table, 0xffff).is_none());
    assert!(map_slab(&table, 0x10000) == Some(SlabPtr { index: 0 }));
    assert!(map_slab(&table, 0x12fff) == Some(SlabPtr { index: 2 }));
    assert!(map_slab(&table, 0x13000) == Some(SlabPtr { index: 3 }));
    assert!(map_slab(&table, 0x14000).is_none());
}

#[test]
fn small_requests_share_a_page() {
    let mut heap = kernel_heap();
    assert_eq!(heap.free_bytes(), 0x8000);
    let a = heap.allocate(64, 8);
    let b = heap.allocate(64, 8);
    let c = heap.allocate(33, 1);
    assert_eq!(a, 0x10_0000);
    assert_eq!(b, 0x10_0040);
    assert_eq!(c, 0x10_0080);
    // one page has left the buddy allocator
    assert_eq!(heap.free_bytes(), 0x7000);
    assert_eq!(heap.page_uses(0), 3);
    assert_eq!(heap.current_page(64), Some(0));
    assert_eq!(heap.partial_pages(64), vec![]);
    // another size class takes a page of its own
    let d = heap.allocate(128, 8);
    assert_eq!(d, 0x10_1000);
    assert_eq!(heap.free_bytes(), 0x6000);
    // requests below a word share the class of a word
    let e = heap.allocate(1, 1);
    let f = heap.allocate(0, 1);
    assert_eq!(e, 0x10_2000);
    assert_eq!(f, 0x10_2008);
}

#[test]
fn ten_slots_and_the_current_page() {
    let mut heap = kernel_heap();
    let mut slots = Vec::new();
    for i in 0..10 {
        let addr = heap.allocate(64, 8);
        assert_eq!(addr, 0x10_0000 + 64 * i);
        slots.push(addr);
    }
    assert_eq!(heap.free_bytes(), 0x7000);
    for &addr in &slots {
        heap.dealloc(addr, 64, 8);
    }
    // the page that slots are served from stays with its cache
    assert_eq!(heap.page_uses(0), 0);
    assert_eq!(heap.current_page(64), Some(0));
    assert_eq!(heap.free_bytes(), 0x7000);
    // the slot that came back last goes out first
    assert_eq!(heap.allocate(64, 8), slots[9]);
}

#[test]
fn full_page_joins_the_chain_and_goes_back_when_empty() {
    let mut heap = kernel_heap();
    let mut slots = Vec::new();
    for i in 0..64 {
        let addr = heap.allocate(64, 8);
        assert_eq!(addr, 0x10_0000 + 64 * i);
        slots.push(addr);
    }
    // the page is full: it is neither current nor in the chain
    assert_eq!(heap.page_uses(0), 64);
    assert_eq!(heap.current_page(64), None);
    assert_eq!(heap.partial_pages(64), vec![]);
    assert_eq!(heap.free_bytes(), 0x7000);
    for (n, &addr) in slots.iter().enumerate().take(63) {
        heap.dealloc(addr, 64, 8);
        assert_eq!(heap.page_uses(0), 63 - n);
        assert_eq!(heap.partial_pages(64), vec![0]);
        assert_eq!(heap.free_bytes(), 0x7000);
    }
    heap.dealloc(slots[63], 64, 8);
    assert_eq!(heap.partial_pages(64), vec![]);
    assert_eq!(heap.current_page(64), None);
    assert_eq!(heap.free_bytes(), 0x8000);
    assert_eq!(heap.allocated_bytes(), 0);
    assert_eq!(heap.free_blocks(15), vec![0x10_0000]);
}

#[test]
fn chain_keeps_its_pages_when_its_head_leaves() {
    let mut heap = kernel_heap();
    // three full pages of two slots each
    let mut slots = Vec::new();
    for _ in 0..6 {
        slots.push(heap.allocate(2048, 8));
    }
    assert_eq!(
        slots,
        vec![0x10_0000, 0x10_0800, 0x10_1000, 0x10_1800, 0x10_2000, 0x10_2800]
    );
    assert_eq!(heap.current_page(2048), None);
    // one slot of each page comes back: the pages join the chain
    heap.dealloc(slots[0], 2048, 8);
    heap.dealloc(slots[2], 2048, 8);
    heap.dealloc(slots[4], 2048, 8);
    assert_eq!(heap.partial_pages(2048), vec![2, 1, 0]);
    // the head becomes empty and leaves; the rest of the chain stays
    heap.dealloc(slots[5], 2048, 8);
    assert_eq!(heap.partial_pages(2048), vec![1, 0]);
    // a page in the middle of a chain leaves
    heap.dealloc(slots[4 - 4 + 1], 2048, 8);
    assert_eq!(heap.partial_pages(2048), vec![1]);
    // the next request is served from the chain
    assert_eq!(heap.allocate(2048, 8), slots[2]);
    assert_eq!(heap.partial_pages(2048), vec![]);
    assert_eq!(heap.current_page(2048), None);
    assert_eq!(heap.page_uses(1), 2);
}

#[test]
fn large_requests_go_to_the_buddy_allocator() {
    let mut heap = kernel_heap();
    assert!(heap.can_alloc(4096, 8));
    let a = heap.allocate(4096, 8);
    let b = heap.allocate(5000, 8);
    assert_eq!(a, 0x10_0000);
    assert_eq!(b, 0x10_2000);
    assert_eq!(heap.allocated_bytes(), 0x1000 + 0x2000);
    assert_eq!(heap.total_bytes(), 0x8000);
    let c = heap.allocate(16, 8);
    assert_eq!(c, 0x10_1000);
    heap.dealloc(a, 4096, 8);
    heap.dealloc(b, 5000, 8);
    heap.dealloc(c, 16, 8);
    // the page of `c` is the current page of its class and stays there
    assert_eq!(heap.free_bytes(), 0x7000);
    assert!(!heap.can_alloc(0x8000, 8));
    assert!(heap.can_alloc(0x4000, 8));
}

#[test]
fn heap_runs_out_of_pages() {
    let mut heap = UPHeapAllocator::new();
    heap.init(0x10_0000, 0x10_1000);
    assert!(heap.can_alloc(2048, 8));
    heap.allocate(2048, 8);
    heap.allocate(2048, 8);
    assert!(!heap.can_alloc(2048, 8));
    assert!(!heap.can_alloc(64, 8));
    assert!(!heap.can_alloc(4096, 8));
}

#[test]
fn slab_heap_knows_its_classes_after_init() {
    let mut heap = UPSlabHeap::empty();
    heap.init();
}
