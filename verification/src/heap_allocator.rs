//! The kernel heap: an arena with a buddy allocator for requests of a page or
//! more and a slab allocator for smaller ones; and the user heap, which is
//! an arena with a buddy allocator alone.

use vstd::prelude::*;
use vstd::arithmetic::power2::{lemma_pow2_pos, pow2};
use crate::arena::{Arena, ArenaModel};
use crate::buddy_allocator::BuddyAllocator;
use crate::buddy_model::{
    apart, coalesce, free_bytes, is_power_of_two, region_state, round_down, round_up, BuddyModel,
    LiveBlock,
};
use crate::config::{ARENA_LIMIT, PAGE_SIZE};
use crate::kmem_cache::{SlabNode, SlabTable};
use crate::slub_allocator::{heap_fits, page_block, page_of, slot_rank, KmemPtr, SlubAllocator};

verus! {

/// The kernel heap.
pub struct UPHeapAllocator {
    arena: Arena,
    table: SlabTable,
    buddy_allocator: BuddyAllocator,
    slub_allocator: SlubAllocator,
}

impl UPHeapAllocator {
    /// The state of the buddy allocator.
    pub closed spec fn buddy(&self) -> BuddyModel {
        self.buddy_allocator@
    }

    /// The arena.
    pub closed spec fn memory(&self) -> ArenaModel {
        self.arena@
    }

    /// Bytes that were asked of the buddy allocator and are not yet given back.
    pub closed spec fn user(&self) -> usize {
        self.buddy_allocator.user()
    }

    /// Bytes of the blocks that the buddy allocator has handed out.
    pub closed spec fn allocated(&self) -> usize {
        self.buddy_allocator.allocated()
    }

    /// Bytes that were added to the heap.
    pub closed spec fn total(&self) -> usize {
        self.buddy_allocator.total()
    }

    /// The slot of class `rank` at `ptr` is handed out.
    pub closed spec fn small_live(&self, ptr: usize, rank: int) -> bool {
        self.slub_allocator.is_live(&self.table, ptr, rank)
    }

    /// The block at `ptr` is handed out for `size` bytes aligned to `align`.
    pub open spec fn large_live(&self, ptr: usize, size: usize, align: usize) -> bool {
        self.buddy().live.contains(
            LiveBlock {
                addr: ptr,
                rank: crate::buddy_model::class_rank(size as nat, align as nat, 4096),
                size: size as nat,
            },
        )
    }

    /// The address that the next small request of `size` bytes gets.
    pub closed spec fn next_small(&self, size: usize) -> usize {
        self.slub_allocator.next_slot(&self.table, self.buddy_allocator@, size)
    }

    /// Whether the size class of `size` has no page with a free slot.
    pub closed spec fn needs_page(&self, size: usize) -> bool {
        self.slub_allocator.caches()[slot_rank(size as nat) as int].needs_page()
    }

    /// Whether the page of the slot at `ptr` goes back to the buddy
    /// allocator with the slot.
    pub closed spec fn gives_back(&self, ptr: usize, size: usize) -> bool {
        self.slub_allocator.caches()[slot_rank(size as nat) as int].gives_back(&self.table, ptr)
    }

    /// The page that holds `ptr`.
    pub closed spec fn page_addr(&self, ptr: usize) -> usize {
        self.table.nodes@[page_of(self.table.base, ptr)].phy_addr
    }

    /// The chain of partial pages of the size class of `size` bytes.
    pub closed spec fn chain(&self, size: usize) -> Seq<int> {
        self.slub_allocator.caches()[slot_rank(size as nat) as int].chain()
    }

    /// The current page of the size class of `size` bytes.
    pub closed spec fn cursor(&self, size: usize) -> Option<usize> {
        match self.slub_allocator.caches()[slot_rank(size as nat) as int].cursor() {
            Some(c) => Some(c.index),
            None => None,
        }
    }

    /// Number of pages of the heap.
    pub closed spec fn page_count(&self) -> nat {
        self.table.nodes@.len()
    }

    /// Number of slots in use on the page at place `page`.
    pub closed spec fn uses(&self, page: int) -> usize {
        self.table.nodes@[page].uses
    }

    /// The heap has not been given its memory yet.
    pub closed spec fn pristine(&self) -> bool {
        &&& self.buddy_allocator.unit() == PAGE_SIZE
        &&& self.buddy_allocator.total() == 0
        &&& self.buddy_allocator.user() == 0
        &&& self.buddy_allocator.allocated() == 0
        &&& self.buddy_allocator@.live.len() == 0
        &&& self.buddy_allocator@.free =~= Seq::new(32, |r: int| Seq::<usize>::empty())
        &&& forall|m: ArenaModel| m.wf() ==> #[trigger] self.buddy_allocator.wf(m)
        &&& self.slub_allocator.caches().len() == 12
        &&& forall|r: int|
            0 <= r < 12 ==> {
                let cache = #[trigger] self.slub_allocator.caches()[r];
                &&& cache.needs_page()
                &&& cache.pages() == Set::<int>::empty()
                &&& cache.chain() == Seq::<int>::empty()
            }
    }

    /// The heap is sound: the two allocators agree on the arena, and each
    /// slab page is a live block of the buddy allocator.
    pub closed spec fn wf(&self) -> bool {
        &&& heap_fits(&self.table, &self.buddy_allocator, self.arena@)
        &&& self.slub_allocator.wf(self.table.nodes@, self.buddy_allocator@, self.arena@)
    }

    /// Whether a request can be served: a small one where its class has a
    /// free slot or the buddy allocator a free page, a large one where the
    /// buddy allocator has a block that is large enough.
    pub closed spec fn fits(&self, size: usize, align: usize) -> bool {
        if size < PAGE_SIZE {
            self.slub_allocator.fits(&self.buddy_allocator, size)
        } else {
            self.buddy_allocator.fits(size, align)
        }
    }

    /// A heap without memory: its arena has no word and its table no page,
    /// the buddy allocator holds no block and counts nothing, no slot is
    /// handed out, and no request can be served.
    pub fn empty() -> (heap: UPHeapAllocator)
        ensures
            heap.pristine(),
            heap.memory().size() == 0,
            heap.page_count() == 0,
            heap.total() == 0,
            heap.allocated() == 0,
            heap.user() == 0,
            heap.buddy().unit_rank == 12,
            heap.buddy().live == Seq::<LiveBlock>::empty(),
            heap.buddy().free == Seq::new(32, |r: int| Seq::<usize>::empty()),
            forall|p: usize, r: int| !heap.small_live(p, r),
            forall|size: usize| size <= PAGE_SIZE / 2 ==> #[trigger] heap.needs_page(size),
            forall|size: usize, align: usize|
                (size < PAGE_SIZE ==> size <= PAGE_SIZE / 2) ==> !#[trigger] heap.fits(size, align),
    {
        proof {
            vstd::arithmetic::power2::lemma2_to64();
            crate::bits::lemma_ceil_log2_pow2(12);
        }
        let heap = UPHeapAllocator {
            arena: Arena::new(PAGE_SIZE, 0),
            table: SlabTable::new(PAGE_SIZE, 0),
            buddy_allocator: BuddyAllocator::empty(PAGE_SIZE),
            slub_allocator: SlubAllocator::empty(),
        };
        proof {
            let g = heap.buddy_allocator@;
            let free = g.free;
            assert forall|r: int| 0 <= r < 32 implies free[r] == Seq::<usize>::empty() by {
                assert(free[r] =~= Seq::<usize>::empty());
            }
            assert(free =~= Seq::new(32, |r: int| Seq::<usize>::empty()));
            assert(g.live =~= Seq::<LiveBlock>::empty());
            assert(heap.buddy_allocator.wf(heap.arena@));
            assert forall|p: usize, r: int| !heap.small_live(p, r) by {
                if 3 <= r < 12 {
                    assert(heap.slub_allocator.caches()[r].pages() == Set::<int>::empty());
                }
            }
            assert forall|size: usize| size <= PAGE_SIZE / 2 implies slot_rank(size as nat)
                < 12 by {
                crate::bits::lemma_ceil_log2_monotone(size as nat, 2048);
                crate::bits::lemma_ceil_log2_pow2(11);
            }
            assert forall|size: usize| size <= PAGE_SIZE / 2 implies #[trigger] heap.needs_page(
                size,
            ) by {
                assert(slot_rank(size as nat) < 12);
            }
            assert forall|size: usize, align: usize| !#[trigger] heap.buddy_allocator.fits(
                size,
                align,
            ) by {
                let rank = heap.buddy_allocator.rank_for(size, align);
                if rank < 32 {
                    crate::buddy_model::lemma_first_fit(g, rank as int);
                }
            }
            assert forall|size: usize, align: usize|
                (size < PAGE_SIZE ==> size <= PAGE_SIZE / 2) implies !#[trigger] heap.fits(
                size,
                align,
            ) by {
                if size < PAGE_SIZE {
                    assert(heap.needs_page(size));
                    assert(!heap.buddy_allocator.fits(
                        pow2(slot_rank(size as nat)) as usize,
                        1,
                    ));
                } else {
                    assert(!heap.buddy_allocator.fits(size, align));
                }
            }
        }
        heap
    }

    /// A heap without memory, as `empty` gives it.
    pub fn new() -> (heap: UPHeapAllocator)
        ensures
            heap.pristine(),
            heap.memory().size() == 0,
            heap.page_count() == 0,
            heap.total() == 0,
            heap.allocated() == 0,
            heap.user() == 0,
            heap.buddy().unit_rank == 12,
            heap.buddy().live == Seq::<LiveBlock>::empty(),
            heap.buddy().free == Seq::new(32, |r: int| Seq::<usize>::empty()),
            forall|p: usize, r: int| !heap.small_live(p, r),
            forall|size: usize| size <= PAGE_SIZE / 2 ==> #[trigger] heap.needs_page(size),
            forall|size: usize, align: usize|
                (size < PAGE_SIZE ==> size <= PAGE_SIZE / 2) ==> !#[trigger] heap.fits(size, align),
    {
        Self::empty()
    }

    /// Gives the heap the whole pages of the range [start, end) as its
    /// memory.
    pub fn init(&mut self, start: usize, end: usize)
        requires
            old(self).pristine(),
            start > 0,
            start % 4096 == 0,
            start <= end,
            end - start <= ARENA_LIMIT,
        ensures
            final(self).wf(),
            final(self).memory().base == start,
            final(self).memory().size() == round_down(end as int, 4096) - start,
            final(self).buddy().live.len() == 0,
            final(self).buddy().free == region_state(
                Seq::new(32, |r: int| Seq::<usize>::empty()),
                start as int,
                (round_down(end as int, 4096) - start) as nat,
                32,
            ),
            final(self).total() == round_down(end as int, 4096) - start,
            final(self).allocated() == 0,
            final(self).user() == 0,
            forall|p: usize, r: int| !final(self).small_live(p, r),
    {
        let span = end - start;
        let whole = span - span % PAGE_SIZE;
        let last = start + whole;
        proof {
            lemma_whole_pages(start as int, end as int);
        }
        self.arena = Arena::new(start, whole);
        self.table = SlabTable::new(start, whole / PAGE_SIZE);
        proof {
            let g = self.buddy_allocator@;
            assert(self.arena@.end() == last);
            assert(self.table.end() == last);
            assert(self.buddy_allocator.wf(self.arena@));
            assert forall|a: usize, r: int| !#[trigger] g.is_free(a, r) by {
                if 0 <= r < 32 {
                    assert(g.free[r] == Seq::<usize>::empty());
                }
            }
            assert(self.buddy_allocator.clear_of(start as int, last as int));
        }
        self.buddy_allocator.add_to_heap(&mut self.arena, start, last);
        self.slub_allocator.init();
        proof {
            if last == start {
                lemma_region_none(Seq::new(32, |r: int| Seq::<usize>::empty()), start as int);
            }
            assert(heap_fits(&self.table, &self.buddy_allocator, self.arena@));
            assert forall|p: usize, r: int| !self.small_live(p, r) by {
                if 3 <= r < 12 {
                    assert(self.slub_allocator.caches()[r].pages() == Set::<int>::empty());
                }
            }
        }
    }

    /// Whether the request can be served.
    pub fn can_alloc(&self, size: usize, align: usize) -> (b: bool)
        requires
            self.wf(),
            is_power_of_two(align as nat),
            size < PAGE_SIZE ==> size <= PAGE_SIZE / 2,
        ensures
            b == self.fits(size, align),
    {
        if size < PAGE_SIZE {
            self.slub_allocator.can_alloc(&self.table, &self.buddy_allocator, &self.arena, size)
        } else {
            self.buddy_allocator.can_alloc(&self.arena, size, align)
        }
    }

    /// Takes `size` bytes aligned to `align`: a slot of the slab allocator
    /// for less than a page, a block of the buddy allocator else. Returns
    /// the address.
    pub fn allocate(&mut self, size: usize, align: usize) -> (addr: usize)
        requires
            old(self).wf(),
            is_power_of_two(align as nat),
            size < PAGE_SIZE ==> size <= PAGE_SIZE / 2,
            old(self).fits(size, align),
        ensures
            final(self).wf(),
            final(self).memory().base == old(self).memory().base,
            final(self).memory().size() == old(self).memory().size(),
            final(self).total() == old(self).total(),
            size < PAGE_SIZE ==> {
                &&& addr == old(self).next_small(size)
                &&& !old(self).small_live(addr, slot_rank(size as nat) as int)
                &&& forall|p: usize, r: int|
                    final(self).small_live(p, r) <==> old(self).small_live(p, r) || (p == addr
                        && r == slot_rank(size as nat))
                &&& old(self).needs_page(size) ==> {
                    &&& final(self).buddy().free == old(self).buddy().carve(12)
                    &&& final(self).buddy().live == old(self).buddy().live.push(
                        page_block(addr, slot_rank(size as nat)),
                    )
                    &&& final(self).user() == old(self).user() + pow2(slot_rank(size as nat))
                    &&& final(self).allocated() == old(self).allocated() + 4096
                }
                &&& !old(self).needs_page(size) ==> {
                    &&& final(self).buddy() == old(self).buddy()
                    &&& final(self).user() == old(self).user()
                    &&& final(self).allocated() == old(self).allocated()
                }
            },
            size >= PAGE_SIZE ==> {
                let rank = crate::buddy_model::class_rank(size as nat, align as nat, 4096);
                &&& addr == old(self).buddy().free[old(self).buddy().first_fit(rank as int)][0]
                &&& final(self).buddy().free == old(self).buddy().carve(rank as int)
                &&& final(self).buddy().live == old(self).buddy().live.push(
                    LiveBlock { addr, rank, size: size as nat },
                )
                &&& final(self).user() == old(self).user() + size
                &&& final(self).allocated() == old(self).allocated() + pow2(rank)
                &&& forall|p: usize, r: int|
                    final(self).small_live(p, r) <==> old(self).small_live(p, r)
            },
    {
        if size < PAGE_SIZE {
            self.slub_allocator.allocate(
                &mut self.table,
                &mut self.buddy_allocator,
                &mut self.arena,
                size,
            )
        } else {
            let ghost h0 = self.buddy_allocator@;
            let ghost m0 = self.arena@;
            let ghost rank = self.buddy_allocator.rank_for(size, align);
            let addr = self.buddy_allocator.allocate(&mut self.arena, size, align);
            proof {
                let h2 = self.buddy_allocator@;
                let m2 = self.arena@;
                let top = h0.first_fit(rank as int);
                crate::buddy_model::lemma_first_fit(h0, rank as int);
                assert(h0.free[top].contains(addr)) by {
                    assert(h0.free[top][0] == addr);
                }
                assert(h0.is_free(addr, top));
                assert forall|b: LiveBlock| h0.live.contains(b) implies h2.live.contains(b) by {
                    let k = choose|k: int| 0 <= k < h0.live.len() && h0.live[k] == b;
                    assert(h2.live[k] == b);
                }
                assert forall|a: usize, k: int|
                    #[trigger] m0.holds(a) && 0 <= k < h0.live.len() && (#[trigger] h0.live[k]).addr
                        <= a < h0.live[k].addr + pow2(h0.live[k].rank) implies m2.word(a)
                    == m0.word(a) by {
                    assert(apart(addr as int, top as nat, h0.live[k].addr as int, h0.live[k].rank));
                }
                self.slub_allocator.lemma_heap_step(self.table.nodes@, h0, m0, h2, m2);
            }
            addr
        }
    }

    /// Gives back the bytes at `ptr` that were taken with `size` and
    /// `align`.
    pub fn dealloc(&mut self, ptr: usize, size: usize, align: usize)
        requires
            old(self).wf(),
            is_power_of_two(align as nat),
            size < PAGE_SIZE ==> size <= PAGE_SIZE / 2 && old(self).small_live(
                ptr,
                slot_rank(size as nat) as int,
            ),
            size >= PAGE_SIZE ==> old(self).large_live(ptr, size, align),
        ensures
            final(self).wf(),
            final(self).memory().base == old(self).memory().base,
            final(self).memory().size() == old(self).memory().size(),
            final(self).total() == old(self).total(),
            size < PAGE_SIZE ==> {
                &&& forall|p: usize, r: int|
                    final(self).small_live(p, r) <==> old(self).small_live(p, r) && !(p == ptr
                        && r == slot_rank(size as nat))
                &&& old(self).gives_back(ptr, size) ==> {
                    &&& final(self).buddy().free == coalesce(
                        old(self).buddy().free,
                        12,
                        old(self).page_addr(ptr),
                    )
                    &&& final(self).buddy().live == old(self).buddy().live.remove(
                        old(self).buddy().live.index_of(
                            page_block(old(self).page_addr(ptr), slot_rank(size as nat)),
                        ),
                    )
                    &&& final(self).user() == old(self).user() - pow2(slot_rank(size as nat))
                    &&& final(self).allocated() == old(self).allocated() - 4096
                }
                &&& !old(self).gives_back(ptr, size) ==> {
                    &&& final(self).buddy() == old(self).buddy()
                    &&& final(self).user() == old(self).user()
                    &&& final(self).allocated() == old(self).allocated()
                }
            },
            size >= PAGE_SIZE ==> {
                let rank = crate::buddy_model::class_rank(size as nat, align as nat, 4096);
                &&& final(self).buddy().free == coalesce(old(self).buddy().free, rank, ptr)
                &&& final(self).buddy().live == old(self).buddy().live.remove(
                    old(self).buddy().live.index_of(LiveBlock { addr: ptr, rank, size: size as nat }),
                )
                &&& final(self).user() == old(self).user() - size
                &&& final(self).allocated() == old(self).allocated() - pow2(rank)
                &&& forall|p: usize, r: int|
                    final(self).small_live(p, r) <==> old(self).small_live(p, r)
            },
    {
        if size < PAGE_SIZE {
            self.slub_allocator.dealloc(
                &mut self.table,
                &mut self.buddy_allocator,
                &mut self.arena,
                ptr,
                size,
            )
        } else {
            let ghost h0 = self.buddy_allocator@;
            let ghost m0 = self.arena@;
            let ghost rank = self.buddy_allocator.rank_for(size, align);
            let ghost blk = LiveBlock { addr: ptr, rank, size: size as nat };
            let ghost at = h0.live.index_of(blk);
            self.buddy_allocator.dealloc(&mut self.arena, ptr, size, align);
            proof {
                let h2 = self.buddy_allocator@;
                let m2 = self.arena@;
                assert(h0.live[at] == blk);
                vstd::arithmetic::power2::lemma2_to64();
                assert forall|b: LiveBlock| h0.live.contains(b) && b.size < 4096 implies h2.live.contains(
                    b,
                ) by {
                    let k = choose|k: int| 0 <= k < h0.live.len() && h0.live[k] == b;
                    let kk = if k < at { k } else { k - 1 };
                    assert(h2.live[kk] == b);
                }
                assert forall|a: usize, k: int|
                    #[trigger] m0.holds(a) && 0 <= k < h0.live.len() && (#[trigger] h0.live[k]).size
                        < 4096 && h0.live[k].addr <= a < h0.live[k].addr + pow2(
                        h0.live[k].rank,
                    ) implies m2.word(a) == m0.word(a) by {
                    assert(k != at);
                    assert(apart(
                        h0.live[k].addr as int,
                        h0.live[k].rank,
                        h0.live[at].addr as int,
                        h0.live[at].rank,
                    ));
                    lemma_pow2_pos(rank);
                    if h0.is_node(a) {
                        let r = choose|r: int| h0.is_free(a, r);
                        assert(apart(
                            a as int,
                            r as nat,
                            h0.live[k].addr as int,
                            h0.live[k].rank,
                        ));
                        lemma_pow2_pos(r as nat);
                    }
                }
                self.slub_allocator.lemma_heap_step(self.table.nodes@, h0, m0, h2, m2);
            }
        }
    }

    /// Bytes held by the free lists of the buddy allocator.
    pub fn free_bytes(&self) -> (n: usize)
        requires
            self.wf(),
        ensures
            n == free_bytes(self.buddy().free, 32),
            n == self.total() - self.allocated(),
    {
        self.buddy_allocator.free_bytes(&self.arena)
    }

    /// The partial pages of the size class of `size` bytes, by their place in
    /// the heap, in the order of the chain.
    pub fn partial_pages(&self, size: usize) -> (pages: Vec<usize>)
        requires
            self.wf(),
            size <= PAGE_SIZE / 2,
        ensures
            pages@.len() == self.chain(size).len(),
            forall|k: int| 0 <= k < pages@.len() ==> #[trigger] pages@[k] == self.chain(size)[k],
    {
        self.slub_allocator.chain_pages(&self.table, &self.buddy_allocator, &self.arena, size)
    }

    /// The current page of the size class of `size` bytes, by its place in
    /// the heap, if there is one.
    pub fn current_page(&self, size: usize) -> (page: Option<usize>)
        requires
            self.wf(),
            size <= PAGE_SIZE / 2,
        ensures
            page == self.cursor(size),
    {
        self.slub_allocator.current_page(size)
    }

    /// Number of slots in use on the page at place `page` of the heap.
    pub fn page_uses(&self, page: usize) -> (uses: usize)
        requires
            page < self.page_count(),
        ensures
            uses == self.uses(page as int),
    {
        self.table.nodes[page].uses
    }

    /// Bytes of the blocks that the buddy allocator has handed out.
    pub fn allocated_bytes(&self) -> (n: usize)
        ensures
            n == self.allocated(),
    {
        self.buddy_allocator.allocated_bytes()
    }

    /// Bytes that were added to the heap.
    pub fn total_bytes(&self) -> (n: usize)
        ensures
            n == self.total(),
    {
        self.buddy_allocator.total_bytes()
    }

    /// The addresses of the free blocks of class `rank` of the buddy
    /// allocator, first block first.
    pub fn free_blocks(&self, rank: usize) -> (blocks: Vec<usize>)
        requires
            self.wf(),
            rank < 32,
        ensures
            blocks@ == self.buddy().free[rank as int],
    {
        self.buddy_allocator.free_blocks(&self.arena, rank)
    }
}

/// The heap of a user program: an arena with a buddy allocator.
pub struct LockedBuddyHeap {
    arena: Arena,
    allocator: BuddyAllocator,
}

impl LockedBuddyHeap {
    /// The state of the buddy allocator.
    pub closed spec fn buddy(&self) -> BuddyModel {
        self.allocator@
    }

    /// The arena.
    pub closed spec fn memory(&self) -> ArenaModel {
        self.arena@
    }

    /// Size of the smallest block that is handed out.
    pub closed spec fn unit(&self) -> usize {
        self.allocator.unit()
    }

    /// Bytes that were asked for and are not yet given back.
    pub closed spec fn user(&self) -> usize {
        self.allocator.user()
    }

    /// Bytes of the blocks that are handed out.
    pub closed spec fn allocated(&self) -> usize {
        self.allocator.allocated()
    }

    /// Bytes that were added to the heap.
    pub closed spec fn total(&self) -> usize {
        self.allocator.total()
    }

    /// The heap is sound.
    pub closed spec fn wf(&self) -> bool {
        self.arena@.wf() && self.allocator.wf(self.arena@)
    }

    /// Whether a free block exists that the request can be carved from.
    pub closed spec fn fits(&self, size: usize, align: usize) -> bool {
        self.allocator.fits(size, align)
    }

    /// The size class that a request is served from.
    pub closed spec fn rank_for(&self, size: usize, align: usize) -> nat {
        self.allocator.rank_for(size, align)
    }

    /// A heap without memory that hands out blocks of at least `unit`
    /// bytes.
    pub fn new(unit: usize) -> (heap: LockedBuddyHeap)
        requires
            is_power_of_two(unit as nat),
            8 <= unit <= ARENA_LIMIT,
        ensures
            heap.wf(),
            heap.unit() == unit,
            heap.memory().size() == 0,
            heap.total() == 0,
            heap.allocated() == 0,
            heap.user() == 0,
            heap.buddy().live.len() == 0,
            heap.buddy().free == Seq::new(32, |r: int| Seq::<usize>::empty()),
            heap.buddy().canonical(),
            forall|x: int| !heap.buddy().holds(x),
    {
        let heap = LockedBuddyHeap {
            arena: Arena::new(8, 0),
            allocator: BuddyAllocator::empty(unit),
        };
        proof {
            let g = heap.allocator@;
            assert forall|r: int| 0 <= r < 32 implies g.free[r] == Seq::<usize>::empty() by {
                assert(g.free[r].len() == 0);
                assert(g.free[r] =~= Seq::<usize>::empty());
            }
            assert(g.free =~= Seq::new(32, |r: int| Seq::<usize>::empty()));
            assert forall|a: usize, r: int| !#[trigger] g.is_free(a, r) by {
                if g.is_free(a, r) {
                    assert(g.free[r].len() == 0);
                }
            }
            assert forall|x: int| !g.holds(x) by {
                if g.covers_free(x) {
                    let (a, r) = choose|a: usize, r: int|
                        #[trigger] g.is_free(a, r) && crate::buddy_laws::inside(
                            x,
                            a as int,
                            r as nat,
                        );
                }
            }
        }
        heap
    }

    /// Add a range of memory [start, end) to the heap: the arena grows by
    /// the whole words of the range, and the allocator takes its whole
    /// units as free blocks.
    pub fn add_to_heap(&mut self, start: usize, end: usize)
        requires
            old(self).wf(),
            0 < start <= end,
            forall|x: int| start <= x < end ==> !old(self).buddy().holds(x),
            old(self).memory().grown(start as int, end as int).size() <= ARENA_LIMIT,
            old(self).total() + (end - start) <= usize::MAX,
        ensures
            final(self).wf(),
            final(self).unit() == old(self).unit(),
            final(self).memory().base == old(self).memory().grown(start as int, end as int).base,
            final(self).memory().size() == old(self).memory().grown(
                start as int,
                end as int,
            ).size(),
            final(self).buddy().live == old(self).buddy().live,
            final(self).allocated() == old(self).allocated(),
            final(self).user() == old(self).user(),
            ({
                let s = round_up(start as int, old(self).unit() as int);
                let e = round_down(end as int, old(self).unit() as int);
                if s < e {
                    &&& final(self).buddy().free == region_state(
                        old(self).buddy().free,
                        s,
                        (e - s) as nat,
                        32,
                    )
                    &&& final(self).total() == old(self).total() + (e - s)
                    &&& (old(self).buddy().aligned() && crate::buddy_model::region_aligned(
                        s,
                        (e - s) as nat,
                    ) ==> final(self).buddy().aligned())
                    &&& (old(self).buddy().aligned() && old(self).buddy().free =~= Seq::new(
                        32,
                        |r: int| Seq::<usize>::empty(),
                    ) && crate::buddy_model::region_aligned(s, (e - s) as nat)
                        ==> final(self).buddy().canonical())
                } else {
                    &&& final(self).buddy() == old(self).buddy()
                    &&& final(self).total() == old(self).total()
                }
            }),
            forall|x: int|
                final(self).buddy().holds(x) == (old(self).buddy().holds(x) || round_up(
                    start as int,
                    old(self).unit() as int,
                ) <= x < round_down(end as int, old(self).unit() as int)),
    {
        proof {
            self.allocator.lemma_unit_bounds(self.arena@);
            lemma_word_rounding(start as int, end as int, old(self).unit() as int);
        }
        let last: usize = end - end % 8;
        if start >= last {
            return ;
        }
        let rem: usize = start % 8;
        let first: usize = if rem == 0 {
            start
        } else {
            start + (8 - rem)
        };
        if first >= last {
            return ;
        }
        proof {
            assert(first == round_up(start as int, 8));
            assert(last == round_down(end as int, 8));
            assert(self.arena@.grown(start as int, end as int) == self.arena@.hull(
                first as int,
                last as int,
            ));
            assert forall|x: int| first <= x < last implies !self.buddy().holds(x) by {
                assert(start <= x < end);
                assert(!old(self).buddy().holds(x));
            }
        }
        self.grow(first, last);
    }

    /// Adds the words from `first` up to `last` to the heap.
    fn grow(&mut self, first: usize, last: usize)
        requires
            old(self).wf(),
            0 < first < last,
            first % 8 == 0,
            last % 8 == 0,
            forall|x: int| first <= x < last ==> !old(self).buddy().holds(x),
            old(self).memory().hull(first as int, last as int).size() <= ARENA_LIMIT,
            old(self).total() + (last - first) <= usize::MAX,
        ensures
            final(self).wf(),
            final(self).unit() == old(self).unit(),
            final(self).memory().base == old(self).memory().hull(first as int, last as int).base,
            final(self).memory().size() == old(self).memory().hull(
                first as int,
                last as int,
            ).size(),
            final(self).buddy().live == old(self).buddy().live,
            final(self).allocated() == old(self).allocated(),
            final(self).user() == old(self).user(),
            ({
                let s = round_up(first as int, old(self).unit() as int);
                let e = round_down(last as int, old(self).unit() as int);
                if s < e {
                    &&& final(self).buddy().free == region_state(
                        old(self).buddy().free,
                        s,
                        (e - s) as nat,
                        32,
                    )
                    &&& final(self).total() == old(self).total() + (e - s)
                    &&& (old(self).buddy().aligned() && crate::buddy_model::region_aligned(
                        s,
                        (e - s) as nat,
                    ) ==> final(self).buddy().aligned())
                    &&& (old(self).buddy().aligned() && old(self).buddy().free =~= Seq::new(
                        32,
                        |r: int| Seq::<usize>::empty(),
                    ) && crate::buddy_model::region_aligned(s, (e - s) as nat)
                        ==> final(self).buddy().canonical())
                } else {
                    &&& final(self).buddy() == old(self).buddy()
                    &&& final(self).total() == old(self).total()
                }
            }),
            forall|x: int|
                final(self).buddy().holds(x) == (old(self).buddy().holds(x) || round_up(
                    first as int,
                    old(self).unit() as int,
                ) <= x < round_down(last as int, old(self).unit() as int)),
    {
        let ghost m0 = self.arena@;
        proof {
            m0.lemma_hull(first as int, last as int);
        }
        self.arena.cover(first, last);
        proof {
            self.allocator.lemma_extends(m0, self.arena@);
            assert(self.allocator@ == old(self).buddy());
            assert forall|x: int| first <= x < last implies !self.allocator@.holds(x) by {
                assert(!old(self).buddy().holds(x));
            }
            self.allocator.lemma_clear_of(first as int, last as int);
        }
        self.allocator.add_to_heap(&mut self.arena, first, last);
        proof {
            let s = round_up(first as int, old(self).unit() as int);
            let e = round_down(last as int, old(self).unit() as int);
            if s < e && old(self).buddy().free =~= Seq::new(32, |r: int| Seq::<usize>::empty()) {
                crate::buddy_laws::lemma_region_no_pairs(self.allocator@, s, (e - s) as nat);
            }
        }
    }

    /// Whether the request can be served.
    pub fn can_alloc(&self, size: usize, align: usize) -> (b: bool)
        requires
            self.wf(),
            is_power_of_two(align as nat),
        ensures
            b == self.fits(size, align),
    {
        self.allocator.can_alloc(&self.arena, size, align)
    }

    /// Takes `size` bytes aligned to `align`. Returns the address of the
    /// block.
    pub fn allocate(&mut self, size: usize, align: usize) -> (addr: usize)
        requires
            old(self).wf(),
            is_power_of_two(align as nat),
            old(self).fits(size, align),
        ensures
            final(self).wf(),
            final(self).unit() == old(self).unit(),
            final(self).memory().base == old(self).memory().base,
            final(self).memory().size() == old(self).memory().size(),
            addr == old(self).buddy().free[old(self).buddy().first_fit(
                old(self).rank_for(size, align) as int,
            )][0],
            final(self).buddy().free == old(self).buddy().carve(
                old(self).rank_for(size, align) as int,
            ),
            final(self).buddy().live == old(self).buddy().live.push(
                LiveBlock { addr, rank: old(self).rank_for(size, align), size: size as nat },
            ),
            final(self).user() == old(self).user() + size,
            final(self).allocated() == old(self).allocated() + pow2(old(self).rank_for(size, align)),
            final(self).total() == old(self).total(),
            final(self).rank_for(size, align) == old(self).rank_for(size, align),
            old(self).buddy().aligned() ==> final(self).buddy().aligned() && addr as nat % pow2(
                old(self).rank_for(size, align),
            ) == 0,
            forall|x: int| final(self).buddy().holds(x) == old(self).buddy().holds(x),
            old(self).buddy().canonical() ==> final(self).buddy().canonical(),
    {
        self.allocator.allocate(&mut self.arena, size, align)
    }

    /// Gives back the block at `ptr` that was taken with `size` and
    /// `align`.
    pub fn dealloc(&mut self, ptr: usize, size: usize, align: usize)
        requires
            old(self).wf(),
            is_power_of_two(align as nat),
            old(self).buddy().live.contains(
                LiveBlock { addr: ptr, rank: old(self).rank_for(size, align), size: size as nat },
            ),
        ensures
            final(self).wf(),
            final(self).unit() == old(self).unit(),
            final(self).memory().base == old(self).memory().base,
            final(self).memory().size() == old(self).memory().size(),
            final(self).buddy().free == coalesce(
                old(self).buddy().free,
                old(self).rank_for(size, align),
                ptr,
            ),
            final(self).buddy().live == old(self).buddy().live.remove(
                old(self).buddy().live.index_of(
                    LiveBlock {
                        addr: ptr,
                        rank: old(self).rank_for(size, align),
                        size: size as nat,
                    },
                ),
            ),
            final(self).user() == old(self).user() - size,
            final(self).allocated() == old(self).allocated() - pow2(old(self).rank_for(size, align)),
            final(self).total() == old(self).total(),
            old(self).buddy().aligned() ==> final(self).buddy().aligned(),
            !final(self).buddy().live.contains(
                LiveBlock { addr: ptr, rank: old(self).rank_for(size, align), size: size as nat },
            ),
            forall|x: int| final(self).buddy().holds(x) == old(self).buddy().holds(x),
            old(self).buddy().canonical() ==> final(self).buddy().canonical(),
    {
        self.allocator.dealloc(&mut self.arena, ptr, size, align)
    }

    /// Bytes held by the free lists.
    pub fn free_bytes(&self) -> (n: usize)
        requires
            self.wf(),
        ensures
            n == free_bytes(self.buddy().free, 32),
            n == self.total() - self.allocated(),
    {
        self.allocator.free_bytes(&self.arena)
    }

    /// The addresses of the free blocks of class `rank`, first block first.
    pub fn free_blocks(&self, rank: usize) -> (blocks: Vec<usize>)
        requires
            self.wf(),
            rank < 32,
        ensures
            blocks@ == self.buddy().free[rank as int],
    {
        self.allocator.free_blocks(&self.arena, rank)
    }
}

/// Rounding down to a multiple of a unit that is a multiple of eight goes
/// below the last whole word.
pub proof fn lemma_round_down_words(end: int, unit: int)
    requires
        unit > 0,
        unit % 8 == 0,
        end >= 0,
    ensures
        round_down(end, unit) <= end - end % 8,
        round_down(end, unit) % 8 == 0,
{
    vstd::arithmetic::div_mod::lemma_fundamental_div_mod(end, unit);
    let q = end / unit;
    assert(round_down(end, unit) == q * unit) by (nonlinear_arith)
        requires
            end == unit * q + end % unit,
    ;
    vstd::arithmetic::div_mod::lemma_mod_multiples_basic(q, unit);
    crate::bits::lemma_mod_trans(q * unit, unit, 8);
    vstd::arithmetic::div_mod::lemma_mod_bound(end, unit);
}

/// The multiple of `unit` that lies in the `unit` numbers from `x` on is
/// what `x` is rounded up to.
pub proof fn lemma_round_up_unique(x: int, unit: int, m: int)
    requires
        unit > 0,
        m % unit == 0,
        x <= m < x + unit,
    ensures
        round_up(x, unit) == m,
{
    vstd::arithmetic::div_mod::lemma_fundamental_div_mod(m, unit);
    let k = m / unit;
    if x == m {
    } else {
        assert(x == (k - 1) * unit + (x - m + unit)) by (nonlinear_arith)
            requires
                m == unit * k,
        ;
        vstd::arithmetic::div_mod::lemma_fundamental_div_mod_converse(
            x,
            unit,
            k - 1,
            x - m + unit,
        );
    }
}

/// The multiple of `unit` that lies in the `unit` numbers up to `x` is what
/// `x` is rounded down to.
pub proof fn lemma_round_down_unique(x: int, unit: int, m: int)
    requires
        unit > 0,
        m % unit == 0,
        m <= x < m + unit,
    ensures
        round_down(x, unit) == m,
{
    vstd::arithmetic::div_mod::lemma_fundamental_div_mod(m, unit);
    let k = m / unit;
    assert(x == k * unit + (x - m)) by (nonlinear_arith)
        requires
            m == unit * k,
    ;
    vstd::arithmetic::div_mod::lemma_fundamental_div_mod_converse(x, unit, k, x - m);
}

/// A range that is cut to whole words holds the same whole units.
pub proof fn lemma_word_rounding(start: int, end: int, unit: int)
    requires
        0 <= start,
        0 <= end,
        unit > 0,
        unit % 8 == 0,
    ensures
        start <= round_up(start, 8) <= round_up(start, unit),
        round_down(end, unit) <= round_down(end, 8) <= end,
        round_up(start, 8) % 8 == 0,
        round_down(end, 8) % 8 == 0,
        round_up(round_up(start, 8), unit) == round_up(start, unit),
        round_down(round_down(end, 8), unit) == round_down(end, unit),
{
    let s = round_up(start, unit);
    let e = round_down(end, unit);
    let s8 = round_up(start, 8);
    let e8 = round_down(end, 8);
    vstd::arithmetic::div_mod::lemma_mod_bound(start, unit);
    vstd::arithmetic::div_mod::lemma_mod_bound(end, unit);
    lemma_round_down_words(end, unit);
    // what `start` is rounded up to is a multiple of the unit
    vstd::arithmetic::div_mod::lemma_fundamental_div_mod(start, unit);
    let q = start / unit;
    if start % unit == 0 {
        assert(s % unit == 0);
    } else {
        assert(s == (q + 1) * unit) by (nonlinear_arith)
            requires
                start == unit * q + start % unit,
                s == start + unit - start % unit,
        ;
        vstd::arithmetic::div_mod::lemma_mod_multiples_basic(q + 1, unit);
    }
    crate::bits::lemma_mod_trans(s, unit, 8);
    assert(s8 <= s);
    lemma_round_up_unique(s8, unit, s);
    // what `end` is rounded down to is a multiple of the unit
    vstd::arithmetic::div_mod::lemma_fundamental_div_mod(end, unit);
    let qe = end / unit;
    assert(e == qe * unit) by (nonlinear_arith)
        requires
            end == unit * qe + end % unit,
            e == end - end % unit,
    ;
    vstd::arithmetic::div_mod::lemma_mod_multiples_basic(qe, unit);
    lemma_round_down_unique(e8, unit, e);
}

/// A region without bytes adds no block.
pub proof fn lemma_region_none(free: Seq<Seq<usize>>, start: int)
    requires
        free.len() == 32,
    ensures
        region_state(free, start, 0, 32) == free,
{
    assert forall|r: nat| r < 32 implies !crate::buddy_model::has_bit(0, r) by {
        lemma_pow2_pos(r);
        vstd::arithmetic::div_mod::lemma_div_basics(pow2(r) as int);
    }
    assert(region_state(free, start, 0, 32) =~= free);
}

/// The whole pages of a range that starts at a page.
pub proof fn lemma_whole_pages(start: int, end: int)
    requires
        0 <= start <= end,
        start % 4096 == 0,
    ensures
        ({
            let span = end - start;
            let whole = span - span % 4096;
            &&& 0 <= whole <= span
            &&& whole % 4096 == 0
            &&& start + whole == round_down(end, 4096)
            &&& round_up(start, 4096) == start
            &&& round_down(start + whole, 4096) == start + whole
            &&& (whole / 4096) * 4096 == whole
            &&& 8 * (whole / 8) == whole
        }),
{
    let q = start / 4096;
    vstd::arithmetic::div_mod::lemma_mod_multiples_vanish(-q, end, 4096);
}

/// The slab allocator where it is used alone, beside a heap that it takes
/// its pages from.
pub struct UPSlabHeap {
    allocator: SlubAllocator,
}

impl UPSlabHeap {
    /// The slab allocator.
    pub closed spec fn slub(&self) -> SlubAllocator {
        self.allocator
    }

    /// Caches that hold no page and do not know their class yet.
    pub fn empty() -> (heap: UPSlabHeap)
        ensures
            heap.slub().caches().len() == 12,
            forall|r: int|
                0 <= r < 12 ==> {
                    let cache = #[trigger] heap.slub().caches()[r];
                    &&& cache.needs_page()
                    &&& cache.pages() == Set::<int>::empty()
                    &&& cache.chain() == Seq::<int>::empty()
                },
    {
        UPSlabHeap { allocator: SlubAllocator::empty() }
    }

    /// Tells each cache its size class.
    pub fn init(&mut self)
        requires
            old(self).slub().caches().len() == 12,
            forall|r: int|
                0 <= r < 12 ==> {
                    let cache = #[trigger] old(self).slub().caches()[r];
                    &&& cache.needs_page()
                    &&& cache.pages() == Set::<int>::empty()
                    &&& cache.chain() == Seq::<int>::empty()
                },
        ensures
            final(self).slub().caches().len() == 12,
            forall|nodes: Seq<SlabNode>, heap: BuddyModel, m: ArenaModel| #[trigger]
                final(self).slub().wf(nodes, heap, m),
            forall|r: int|
                0 <= r < 12 ==> {
                    let cache = #[trigger] final(self).slub().caches()[r];
                    &&& cache.class() == r
                    &&& cache.needs_page()
                    &&& cache.pages() == Set::<int>::empty()
                    &&& cache.chain() == Seq::<int>::empty()
                },
    {
        self.allocator.init();
    }
}

} // verus!
