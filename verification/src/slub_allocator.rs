//! The slab allocator: one cache for each size class below a page. A cache
//! serves slots from its current page, keeps the pages that are neither full
//! nor empty in a chain, and gives a page back to the buddy allocator when
//! its last slot has come back.

use vstd::prelude::*;
use vstd::arithmetic::power2::{lemma_pow2_pos, pow2};
use crate::arena::{Arena, ArenaModel};
use crate::bits::{block_size, ceil_log2, lemma_pow2_rank};
use crate::buddy_allocator::BuddyAllocator;
use crate::buddy_model::{apart, class_rank, BuddyModel, LiveBlock};
use crate::config::PAGE_SIZE;
use crate::kmem_cache::{capacity, lemma_slot, map_slab, slots, SlabNode, SlabPtr, SlabTable};

verus! {

/// The live block of the buddy allocator that backs a slab page of the size
/// class `rank`.
pub open spec fn page_block(addr: usize, rank: nat) -> LiveBlock {
    LiveBlock { addr, rank: 12, size: pow2(rank) }
}

/// The reference to the `k`-th page of a chain, or `None` outside the chain.
#[verifier::opaque]
pub open spec fn ptr_at(chain: Seq<int>, k: int) -> Option<SlabPtr> {
    if 0 <= k < chain.len() {
        Some(SlabPtr { index: chain[k] as usize })
    } else {
        None
    }
}

/// What `ptr_at` is at one place.
pub proof fn lemma_ptr_at(chain: Seq<int>, k: int)
    ensures
        ptr_at(chain, k) == (if 0 <= k < chain.len() {
            Some(SlabPtr { index: chain[k] as usize })
        } else {
            None
        }),
{
    reveal(ptr_at);
}

/// The places of a chain without its first page.
pub proof fn lemma_ptr_drop_first(chain: Seq<int>, k: int)
    requires
        chain.len() > 0,
    ensures
        ptr_at(chain.drop_first(), k) == (if k >= 0 {
            ptr_at(chain, k + 1)
        } else {
            None
        }),
{
    reveal(ptr_at);
}

/// The places of a chain with one more page in front.
pub proof fn lemma_ptr_push(chain: Seq<int>, x: int, k: int)
    ensures
        ptr_at(seq![x] + chain, k) == (if k == 0 {
            Some(SlabPtr { index: x as usize })
        } else if k > 0 {
            ptr_at(chain, k - 1)
        } else {
            None
        }),
{
    reveal(ptr_at);
}

/// The places of a chain without the page at `at`.
pub proof fn lemma_ptr_remove(chain: Seq<int>, at: int, k: int)
    requires
        0 <= at < chain.len(),
    ensures
        ptr_at(chain.remove(at), k) == (if k < 0 {
            None
        } else if k < at {
            ptr_at(chain, k)
        } else {
            ptr_at(chain, k + 1)
        }),
{
    reveal(ptr_at);
}

/// The page that holds `ptr` in a table whose first page is at `base`.
pub open spec fn page_of(base: usize, ptr: usize) -> int {
    (ptr - base) / 4096
}

/// The heap's arena starts at the table's first page, no record is missing,
/// and the buddy allocator hands out whole pages.
pub open spec fn heap_fits(table: &SlabTable, heap: &BuddyAllocator, m: ArenaModel) -> bool {
    &&& table.wf()
    &&& m.wf()
    &&& heap.wf(m)
    &&& heap.unit() == PAGE_SIZE
    &&& table.base == m.base
    &&& m.end() <= table.end()
}

/// The cache of one size class.
pub struct KmemPtr {
    pub rank: usize,
    curr: Option<SlabPtr>,
    next: Option<SlabPtr>,
    pages: Ghost<Set<int>>,
    chain: Ghost<Seq<int>>,
}

impl KmemPtr {
    /// The page that slots are served from.
    pub closed spec fn cursor(&self) -> Option<SlabPtr> {
        self.curr
    }

    /// The first page of the chain of partial pages.
    pub closed spec fn head(&self) -> Option<SlabPtr> {
        self.next
    }

    /// The pages that the cache holds, by their place in the table.
    pub closed spec fn pages(&self) -> Set<int> {
        self.pages@
    }

    /// The chain of partial pages, first page first.
    pub closed spec fn chain(&self) -> Seq<int> {
        self.chain@
    }

    /// The size class of the cache.
    pub closed spec fn class(&self) -> usize {
        self.rank
    }

    /// What holds of a page `i` of the cache at every moment: it is a live
    /// block of the heap, cut into slots of the cache's class, and has no
    /// neighbours unless it is in the chain.
    #[verifier::opaque]
    pub open spec fn page_base(
        &self,
        nodes: Seq<SlabNode>,
        heap: BuddyModel,
        m: ArenaModel,
        i: int,
    ) -> bool {
        &&& 0 <= i < nodes.len()
        &&& nodes[i].rank == self.class()
        &&& nodes[i].wf(m)
        &&& nodes[i].phy_addr % 4096 == 0
        &&& heap.live.contains(page_block(nodes[i].phy_addr, self.class() as nat))
        &&& (!self.chain().contains(i) ==> nodes[i].prev.is_none() && nodes[i].next.is_none())
    }

    /// What holds of a page `i` of the cache between two operations: unless
    /// it is the current page, it has a slot in use, and it is in the chain
    /// if and only if it also has a free slot.
    pub open spec fn page_inv(
        &self,
        nodes: Seq<SlabNode>,
        heap: BuddyModel,
        m: ArenaModel,
        i: int,
    ) -> bool {
        &&& self.page_base(nodes, heap, m, i)
        &&& (self.cursor() != Some(SlabPtr { index: i as usize }) ==> {
            &&& nodes[i].uses > 0
            &&& (self.chain().contains(i) <==> nodes[i].uses < capacity(self.class() as nat))
        })
    }

    /// The cache is sound but for the place of page `x`, which may be in the
    /// chain, or outside it, against what its use count says.
    pub open spec fn wf_but(
        &self,
        nodes: Seq<SlabNode>,
        heap: BuddyModel,
        m: ArenaModel,
        x: int,
    ) -> bool {
        &&& 3 <= self.class() < 12
        &&& forall|i: int| #[trigger]
            self.pages().contains(i) ==> if i == x {
                self.page_base(nodes, heap, m, i)
            } else {
                self.page_inv(nodes, heap, m, i)
            }
        &&& self.chain().no_duplicates()
        &&& forall|k: int|
            0 <= k < self.chain().len() ==> {
                let i = #[trigger] self.chain()[k];
                &&& self.pages().contains(i)
                &&& nodes[i].prev == ptr_at(self.chain(), k - 1)
                &&& nodes[i].next == ptr_at(self.chain(), k + 1)
            }
        &&& self.head() == ptr_at(self.chain(), 0)
        &&& match self.cursor() {
            Some(c) => {
                &&& self.pages().contains(c.index as int)
                &&& !self.chain().contains(c.index as int)
                &&& nodes[c.index as int].free_pieces@.len() > 0
            },
            None => true,
        }
    }

    /// The cache is sound: each of its pages is a live block of the heap
    /// that is cut into slots of the cache's class; the chain holds exactly
    /// the pages, other than the current one, that are neither full nor
    /// empty, doubly linked in order; the current page has a free slot.
    pub open spec fn wf(&self, nodes: Seq<SlabNode>, heap: BuddyModel, m: ArenaModel) -> bool {
        &&& 3 <= self.class() < 12
        &&& forall|i: int| #[trigger] self.pages().contains(i) ==> self.page_inv(nodes, heap, m, i)
        &&& self.chain().no_duplicates()
        &&& forall|k: int|
            0 <= k < self.chain().len() ==> {
                let i = #[trigger] self.chain()[k];
                &&& self.pages().contains(i)
                &&& nodes[i].prev == ptr_at(self.chain(), k - 1)
                &&& nodes[i].next == ptr_at(self.chain(), k + 1)
            }
        &&& self.head() == ptr_at(self.chain(), 0)
        &&& match self.cursor() {
            Some(c) => {
                &&& self.pages().contains(c.index as int)
                &&& !self.chain().contains(c.index as int)
                &&& nodes[c.index as int].free_pieces@.len() > 0
            },
            None => true,
        }
    }

    /// A table, heap and arena that agree with the old ones on the pages of
    /// the cache leave the cache sound.
    pub proof fn lemma_frame(
        &self,
        n1: Seq<SlabNode>,
        h1: BuddyModel,
        m1: ArenaModel,
        n2: Seq<SlabNode>,
        h2: BuddyModel,
        m2: ArenaModel,
    )
        requires
            self.wf(n1, h1, m1),
            n2.len() == n1.len(),
            m2.base == m1.base,
            m2.words.len() == m1.words.len(),
            forall|i: int| #[trigger] self.pages().contains(i) ==> n2[i] == n1[i],
            forall|i: int| #[trigger]
                self.pages().contains(i) ==> h2.live.contains(
                    page_block(n1[i].phy_addr, self.class() as nat),
                ),
            forall|i: int, a: usize|
                #[trigger] self.pages().contains(i) && #[trigger] m1.holds(a) && n1[i].phy_addr
                    <= a < n1[i].phy_addr + PAGE_SIZE ==> m2.word(a) == m1.word(a),
        ensures
            self.wf(n2, h2, m2),
    {
        reveal(KmemPtr::page_base);
        assert forall|i: int| #[trigger] self.pages().contains(i) implies self.page_inv(
            n2,
            h2,
            m2,
            i,
        ) by {
            assert(self.page_inv(n1, h1, m1, i));
            n1[i].lemma_agree(m1, m2);
        }
        assert forall|k: int| 0 <= k < self.chain().len() implies {
            let i = #[trigger] self.chain()[k];
            &&& self.pages().contains(i)
            &&& n2[i].prev == ptr_at(self.chain(), k - 1)
            &&& n2[i].next == ptr_at(self.chain(), k + 1)
        } by {
            assert(self.pages().contains(self.chain()[k]));
        }
    }

    /// A cache that holds no page.
    pub fn empty() -> (cache: KmemPtr)
        ensures
            cache.class() == 0,
            cache.cursor().is_none(),
            cache.head().is_none(),
            cache.pages() == Set::<int>::empty(),
            cache.chain() == Seq::<int>::empty(),
    {
        KmemPtr {
            rank: 0,
            curr: None,
            next: None,
            pages: Ghost(Set::empty()),
            chain: Ghost(Seq::empty()),
        }
    }

    /// A cache for the size class `rank` that holds no page.
    pub fn with_rank(rank: usize) -> (cache: KmemPtr)
        ensures
            cache.class() == rank,
            cache.cursor().is_none(),
            cache.head().is_none(),
            cache.pages() == Set::<int>::empty(),
            cache.chain() == Seq::<int>::empty(),
            3 <= rank < 12 ==> forall|nodes: Seq<SlabNode>, heap: BuddyModel, m: ArenaModel|
                #[trigger] cache.wf(nodes, heap, m),
    {
        let cache = KmemPtr {
            rank,
            curr: None,
            next: None,
            pages: Ghost(Set::empty()),
            chain: Ghost(Seq::empty()),
        };
        proof {
            lemma_ptr_at(cache.chain@, 0);
        }
        cache
    }

    /// Makes the first page of the chain the current page.
    fn take_head(&mut self, table: &mut SlabTable, Ghost(heap): Ghost<BuddyModel>, Ghost(m): Ghost<ArenaModel>)
        requires
            old(table).wf(),
            old(self).wf(old(table).nodes@, heap, m),
            old(self).cursor().is_none(),
            old(self).head().is_some(),
        ensures
            final(table).wf(),
            final(table).base == old(table).base,
            final(table).nodes@.len() == old(table).nodes@.len(),
            final(self).wf(final(table).nodes@, heap, m),
            final(self).class() == old(self).class(),
            final(self).pages() == old(self).pages(),
            final(self).cursor() == old(self).head(),
            final(self).chain() == old(self).chain().drop_first(),
            forall|j: int|
                0 <= j < old(table).nodes@.len() ==> (#[trigger] final(table).nodes@[j]) == old(table).nodes@[j].relinked(final(table).nodes@[j].prev, final(table).nodes@[j].next),
            forall|j: int|
                0 <= j < old(table).nodes@.len() && !old(self).pages().contains(j) ==> (
                #[trigger] final(table).nodes@[j]) == old(table).nodes@[j],
    {
        let ghost n0 = table.nodes@;
        let ghost chain = self.chain@;
        let ghost c0 = *self;
        let slab = self.next.unwrap();
        proof {
            reveal(KmemPtr::page_base);
            lemma_ptr_at(chain, 0);
            lemma_ptr_at(chain, 1);
            lemma_ptr_at(chain, -1);
            assert(chain.len() > 0);
            assert(chain[0] == slab.index);
            assert(self.pages@.contains(chain[0]));
            assert(c0.page_inv(n0, heap, m, chain[0]));
            if chain.len() > 1 {
                assert(self.pages@.contains(chain[1]));
                assert(c0.page_inv(n0, heap, m, chain[1]));
            }
        }
        let after = table.nodes[slab.index].next;
        match after {
            Some(second) => {
                table.nodes[second.index].prev = None;
                self.next = Some(second);
            },
            None => {
                self.next = None;
            },
        }
        table.nodes[slab.index].next = None;
        self.curr = Some(slab);
        proof {
            self.chain@ = chain.drop_first();
            let n2 = table.nodes@;
            let rest = chain.drop_first();
            assert forall|j: int| 0 <= j < n0.len() implies (#[trigger] n2[j]) == n0[j].relinked(
                n2[j].prev,
                n2[j].next,
            ) by {}
            assert forall|x: int| rest.contains(x) <==> (chain.contains(x) && x != chain[0]) by {
                if rest.contains(x) {
                    let k = choose|k: int| 0 <= k < rest.len() && rest[k] == x;
                    assert(chain[k + 1] == x);
                }
                if chain.contains(x) && x != chain[0] {
                    let k = choose|k: int| 0 <= k < chain.len() && chain[k] == x;
                    assert(rest[k - 1] == x);
                }
            }
            assert forall|i: int| #[trigger] self.pages().contains(i) implies self.page_inv(
                n2,
                heap,
                m,
                i,
            ) by {
                assert(c0.page_inv(n0, heap, m, i));
                assert(n2[i] == n0[i].relinked(n2[i].prev, n2[i].next));
                if i != chain[0] && !(chain.len() > 1 && i == chain[1]) {
                    assert(n2[i] == n0[i]);
                }
            }
            assert forall|k: int| 0 <= k < rest.len() implies {
                let i = #[trigger] rest[k];
                &&& self.pages().contains(i)
                &&& n2[i].prev == ptr_at(rest, k - 1)
                &&& n2[i].next == ptr_at(rest, k + 1)
            } by {
                let i = chain[k + 1];
                assert(rest[k] == i);
                assert(c0.pages().contains(i));
                assert(n0[i].prev == ptr_at(chain, k));
                assert(n0[i].next == ptr_at(chain, k + 2));
                lemma_ptr_drop_first(chain, k - 1);
                lemma_ptr_drop_first(chain, k + 1);
                assert(i != chain[0]);
                if k > 0 {
                    assert(i != chain[1]);
                    assert(n2[i] == n0[i]);
                }
            }
            lemma_ptr_drop_first(chain, 0);
            assert(n0[chain[0]].free_pieces@.len() > 0) by {
                lemma_pow2_pos((12 - self.rank) as nat);
            }
        }
    }

    /// Makes a fresh page from the heap the current page.
    fn take_page(&mut self, table: &mut SlabTable, heap: &mut BuddyAllocator, mem: &mut Arena)
        requires
            heap_fits(old(table), old(heap), old(mem)@),
            old(self).wf(old(table).nodes@, old(heap)@, old(mem)@),
            old(self).needs_page(),
            old(heap).fits(pow2(old(self).class() as nat) as usize, 1),
        ensures
            heap_fits(final(table), final(heap), final(mem)@),
            final(table).base == old(table).base,
            final(table).nodes@.len() == old(table).nodes@.len(),
            final(self).wf(final(table).nodes@, final(heap)@, final(mem)@),
            final(self).class() == old(self).class(),
            final(self).chain() == old(self).chain(),
            ({
                let top = old(heap)@.first_fit(12);
                let p = old(heap)@.free[top][0];
                let i = page_of(old(table).base, p);
                &&& 0 <= i < old(table).nodes@.len()
                &&& !old(self).pages().contains(i)
                &&& old(heap)@.is_free(p, top)
                &&& final(self).pages() == old(self).pages().insert(i)
                &&& final(self).cursor() == Some(SlabPtr { index: i as usize })
                &&& final(table).nodes@[i].phy_addr == p
                &&& final(table).nodes@[i].free_pieces@ == slots(p, old(self).class() as nat)
                &&& final(table).nodes@[i].live() == Set::<usize>::empty()
                &&& final(table).nodes@[i].uses == 0
                &&& forall|j: int|
                    0 <= j < old(table).nodes@.len() && j != i ==> (#[trigger] final(table).nodes@[j]) == old(table).nodes@[j]
                &&& final(heap)@.free == old(heap)@.carve(12)
                &&& final(heap)@.live == old(heap)@.live.push(
                    page_block(p, old(self).class() as nat),
                )
                &&& final(mem)@.agrees_outside(old(mem)@, p as int, p + pow2(top as nat))
            }),
            final(heap).unit() == old(heap).unit(),
            final(heap).total() == old(heap).total(),
            final(heap).user() == old(heap).user() + pow2(old(self).class() as nat),
            final(heap).allocated() == old(heap).allocated() + 4096,
    {
        let ghost n0 = table.nodes@;
        let ghost h0 = heap@;
        let ghost m0 = mem@;
        let ghost c0 = *self;
        let ghost top = h0.first_fit(12);
        let ghost p = h0.free[top][0];
        let size = block_size(self.rank);
        proof {
            reveal(KmemPtr::page_base);
            lemma_page_class(self.rank as nat);
            lemma_pow2_rank(self.rank as nat);
            crate::buddy_model::lemma_first_fit(h0, 12);
            assert(h0.free[top].contains(p));
            assert(h0.is_free(p, top));
            vstd::arithmetic::power2::lemma2_to64();
        }
        let ptr = heap.allocate(mem, size, 1);
        let ghost h1 = heap@;
        let ghost m1 = mem@;
        proof {
            let blk = page_block(p, self.rank as nat);
            assert(h1.live[h1.live.len() - 1] == blk);
            crate::bits::lemma_pow2_monotone(12, top as nat);
        }
        let slab = map_slab(table, ptr).unwrap();
        let idx = slab.index;
        proof {
            assert(n0[idx as int].phy_addr == ptr) by {
                vstd::arithmetic::div_mod::lemma_fundamental_div_mod((ptr - table.base) as int, 4096);
                crate::bits::lemma_mod_sum(ptr as int, table.base as int, 4096);
            }
            if c0.pages().contains(idx as int) {
                assert(c0.page_inv(n0, h0, m0, idx as int));
                let blk = page_block(ptr, self.rank as nat);
                let j = choose|j: int| 0 <= j < h0.live.len() && h0.live[j] == blk;
                assert(apart(p as int, top as nat, h0.live[j].addr as int, h0.live[j].rank));
                lemma_pow2_pos(top as nat);
            }
        }
        table.nodes[idx].rank = self.rank;
        table.nodes[idx].prev = None;
        table.nodes[idx].next = None;
        table.nodes[idx].new(mem);
        self.curr = Some(slab);
        proof {
            self.pages@ = c0.pages().insert(idx as int);
            let n2 = table.nodes@;
            let m2 = mem@;
            assert forall|j: int| 0 <= j < n0.len() && j != idx implies (#[trigger] n2[j])
                == n0[j] by {}
            // the heap's lists stand outside the page
            assert forall|a: usize| #[trigger] h1.is_node(a) implies m2.word(a) == m1.word(a) by {
                let r = choose|r: int| h1.is_free(a, r);
                assert(apart(
                    a as int,
                    r as nat,
                    h1.live[h1.live.len() - 1].addr as int,
                    h1.live[h1.live.len() - 1].rank,
                ));
                lemma_pow2_pos(r as nat);
                assert(m1.holds(a));
            }
            heap.lemma_agree(m1, m2);
            assert(m2.agrees_outside(m0, p as int, p + pow2(top as nat))) by {
                assert forall|a: usize| #[trigger]
                    m0.holds(a) && !(p <= a < p + pow2(top as nat)) implies m2.word(a) == m0.word(
                    a,
                ) by {
                    assert(m1.holds(a));
                }
            }
            assert forall|i: int| #[trigger] self.pages().contains(i) implies self.page_inv(
                n2,
                h1,
                m2,
                i,
            ) by {
                if i == idx {
                    lemma_pow2_pos((12 - self.rank) as nat);
                    assert(n2[i].live().len() == 0);
                } else {
                    assert(c0.pages().contains(i));
                    assert(c0.page_inv(n0, h0, m0, i));
                    let blk = page_block(n0[i].phy_addr, self.rank as nat);
                    let j = choose|j: int| 0 <= j < h0.live.len() && h0.live[j] == blk;
                    assert(h1.live[j] == blk);
                    assert(apart(p as int, top as nat, h0.live[j].addr as int, h0.live[j].rank));
                    assert forall|a: usize|
                        #[trigger] m0.holds(a) && n0[i].phy_addr <= a < n0[i].phy_addr
                            + PAGE_SIZE implies m2.word(a) == m0.word(a) by {
                        assert(m1.holds(a));
                    }
                    n0[i].lemma_agree(m0, m2);
                }
            }
            assert forall|k: int| 0 <= k < self.chain().len() implies {
                let i = #[trigger] self.chain()[k];
                &&& self.pages().contains(i)
                &&& n2[i].prev == ptr_at(self.chain(), k - 1)
                &&& n2[i].next == ptr_at(self.chain(), k + 1)
            } by {
                assert(c0.pages().contains(c0.chain()[k]));
            }
            lemma_pow2_pos((12 - self.rank) as nat);
        }
    }

    /// Puts the page `idx` at the head of the chain.
    fn push_head(
        &mut self,
        table: &mut SlabTable,
        slab: SlabPtr,
        Ghost(heap): Ghost<BuddyModel>,
        Ghost(m): Ghost<ArenaModel>,
    )
        requires
            old(table).wf(),
            old(self).wf_but(old(table).nodes@, heap, m, slab.index as int),
            old(self).pages().contains(slab.index as int),
            !old(self).chain().contains(slab.index as int),
            old(self).cursor() != Some(slab),
        ensures
            final(table).wf(),
            final(table).base == old(table).base,
            final(table).nodes@.len() == old(table).nodes@.len(),
            final(self).wf_but(final(table).nodes@, heap, m, slab.index as int),
            final(self).class() == old(self).class(),
            final(self).pages() == old(self).pages(),
            final(self).cursor() == old(self).cursor(),
            final(self).chain() == seq![slab.index as int] + old(self).chain(),
            forall|j: int|
                0 <= j < old(table).nodes@.len() ==> (#[trigger] final(table).nodes@[j]) == old(table).nodes@[j].relinked(final(table).nodes@[j].prev, final(table).nodes@[j].next),
            forall|j: int|
                0 <= j < old(table).nodes@.len() && !old(self).pages().contains(j) ==> (
                #[trigger] final(table).nodes@[j]) == old(table).nodes@[j],
    {
        let ghost n0 = table.nodes@;
        let ghost chain = self.chain@;
        let ghost c0 = *self;
        let ghost x = slab.index as int;
        let idx = slab.index;
        proof {
            reveal(KmemPtr::page_base);
            lemma_ptr_at(chain, 0);
            assert(c0.page_base(n0, heap, m, x));
            if chain.len() > 0 {
                assert(c0.pages().contains(chain[0]));
            }
        }
        match self.next {
            Some(first) => {
                table.nodes[first.index].prev = Some(slab);
                table.nodes[idx].next = Some(first);
                table.nodes[idx].prev = None;
            },
            None => {},
        }
        self.next = Some(slab);
        proof {
            let grown = seq![x] + chain;
            self.chain@ = grown;
            let n2 = table.nodes@;
            assert forall|j: int| 0 <= j < n0.len() implies (#[trigger] n2[j]) == n0[j].relinked(
                n2[j].prev,
                n2[j].next,
            ) by {}
            assert forall|y: int| grown.contains(y) <==> (chain.contains(y) || y == x) by {
                if grown.contains(y) {
                    let k = choose|k: int| 0 <= k < grown.len() && grown[k] == y;
                    if k > 0 {
                        assert(chain[k - 1] == y);
                    }
                }
                if chain.contains(y) {
                    let k = choose|k: int| 0 <= k < chain.len() && chain[k] == y;
                    assert(grown[k + 1] == y);
                }
                assert(grown[0] == x);
            }
            assert(grown.no_duplicates()) by {
                assert forall|a: int, b: int|
                    0 <= a < grown.len() && 0 <= b < grown.len() && a != b implies grown[a]
                    != grown[b] by {
                    if a > 0 {
                        assert(chain.contains(grown[a]));
                    }
                    if b > 0 {
                        assert(chain.contains(grown[b]));
                    }
                }
            }
            assert forall|i: int| #[trigger] self.pages().contains(i) implies if i == x {
                self.page_base(n2, heap, m, i)
            } else {
                self.page_inv(n2, heap, m, i)
            } by {
                assert(n2[i] == n0[i].relinked(n2[i].prev, n2[i].next));
                if i != x {
                    assert(c0.page_inv(n0, heap, m, i));
                    if !(chain.len() > 0 && i == chain[0]) {
                        assert(n2[i] == n0[i]);
                    }
                }
            }
            assert forall|k: int| 0 <= k < grown.len() implies {
                let i = #[trigger] grown[k];
                &&& self.pages().contains(i)
                &&& n2[i].prev == ptr_at(grown, k - 1)
                &&& n2[i].next == ptr_at(grown, k + 1)
            } by {
                lemma_ptr_push(chain, x, k - 1);
                lemma_ptr_push(chain, x, k + 1);
                lemma_ptr_at(chain, 0);
                if k > 0 {
                    let i = chain[k - 1];
                    assert(grown[k] == i);
                    assert(c0.pages().contains(i));
                    assert(chain.contains(i));
                    assert(n0[i].prev == ptr_at(chain, k - 2));
                    assert(n0[i].next == ptr_at(chain, k));
                    if k > 1 {
                        assert(i != chain[0]);
                        assert(n2[i] == n0[i]);
                    }
                }
            }
            lemma_ptr_push(chain, x, 0);
        }
    }

    /// Takes the page `slab` out of the chain.
    fn unlink(
        &mut self,
        table: &mut SlabTable,
        slab: SlabPtr,
        Ghost(heap): Ghost<BuddyModel>,
        Ghost(m): Ghost<ArenaModel>,
    )
        requires
            old(table).wf(),
            old(self).wf_but(old(table).nodes@, heap, m, slab.index as int),
            old(self).chain().contains(slab.index as int),
        ensures
            final(table).wf(),
            final(table).base == old(table).base,
            final(table).nodes@.len() == old(table).nodes@.len(),
            final(self).wf_but(final(table).nodes@, heap, m, slab.index as int),
            final(self).class() == old(self).class(),
            final(self).pages() == old(self).pages(),
            final(self).cursor() == old(self).cursor(),
            final(self).chain() == old(self).chain().remove(
                old(self).chain().index_of(slab.index as int),
            ),
            !final(self).chain().contains(slab.index as int),
            forall|j: int|
                0 <= j < old(table).nodes@.len() ==> (#[trigger] final(table).nodes@[j]) == old(table).nodes@[j].relinked(final(table).nodes@[j].prev, final(table).nodes@[j].next),
            forall|j: int|
                0 <= j < old(table).nodes@.len() && !old(self).pages().contains(j) ==> (
                #[trigger] final(table).nodes@[j]) == old(table).nodes@[j],
    {
        let ghost n0 = table.nodes@;
        let ghost chain = self.chain@;
        let ghost c0 = *self;
        let ghost x = slab.index as int;
        let ghost at = chain.index_of(x);
        let idx = slab.index;
        proof {
            reveal(KmemPtr::page_base);
            lemma_ptr_at(chain, at - 1);
            lemma_ptr_at(chain, at + 1);
            lemma_ptr_at(chain, 0);
            lemma_ptr_at(chain, 1);
            assert(chain[at] == x);
            assert(c0.pages().contains(chain[at]));
            if at > 0 {
                assert(c0.pages().contains(chain[at - 1]));
            }
            if at + 1 < chain.len() {
                assert(c0.pages().contains(chain[at + 1]));
            }
            assert(n0[x].prev == ptr_at(chain, at - 1));
            assert(n0[x].next == ptr_at(chain, at + 1));
        }
        let before = table.nodes[idx].prev;
        let after = table.nodes[idx].next;
        match before {
            Some(prev) => {
                // not beginning
                table.nodes[prev.index].next = after;
                match after {
                    Some(next) => {
                        table.nodes[next.index].prev = Some(prev);
                    },
                    None => {},
                }
            },
            None => {
                // beginning
                match after {
                    Some(next) => {
                        table.nodes[next.index].prev = None;
                    },
                    None => {},
                }
                self.next = after;
            },
        }
        table.nodes[idx].prev = None;
        table.nodes[idx].next = None;
        proof {
            self.chain@ = chain.remove(at);
            let n2 = table.nodes@;
            assert forall|j: int| 0 <= j < n0.len() implies (#[trigger] n2[j]) == n0[j].relinked(
                n2[j].prev,
                n2[j].next,
            ) by {}
            if at > 0 && at + 1 < chain.len() {
                assert(chain[at - 1] != chain[at + 1]);
            }
            Self::lemma_unlink(c0, *self, n0, n2, heap, m, x);
        }
    }

    /// The chain without one of its pages is a chain again, once the
    /// neighbours of the page are linked to each other.
    proof fn lemma_unlink(
        c0: KmemPtr,
        c2: KmemPtr,
        n0: Seq<SlabNode>,
        n2: Seq<SlabNode>,
        heap: BuddyModel,
        m: ArenaModel,
        x: int,
    )
        requires
            c0.wf_but(n0, heap, m, x),
            c0.chain().contains(x),
            c2.rank == c0.rank,
            c2.curr == c0.curr,
            c2.pages@ == c0.pages@,
            c2.chain@ == c0.chain@.remove(c0.chain@.index_of(x)),
            c2.next == (if c0.chain@.index_of(x) == 0 {
                ptr_at(c0.chain@, 1)
            } else {
                c0.next
            }),
            n2.len() == n0.len(),
            forall|j: int|
                0 <= j < n0.len() ==> (#[trigger] n2[j]) == n0[j].relinked(n2[j].prev, n2[j].next),
            forall|j: int|
                0 <= j < n0.len() && j != x && !(c0.chain@.index_of(x) > 0 && j
                    == c0.chain@[c0.chain@.index_of(x) - 1]) && !(c0.chain@.index_of(x) + 1
                    < c0.chain@.len() && j == c0.chain@[c0.chain@.index_of(x) + 1]) ==> (
                #[trigger] n2[j]) == n0[j],
            n2[x].prev.is_none(),
            n2[x].next.is_none(),
            c0.chain@.index_of(x) > 0 ==> {
                let before = c0.chain@[c0.chain@.index_of(x) - 1];
                &&& n2[before].next == ptr_at(c0.chain@, c0.chain@.index_of(x) + 1)
                &&& n2[before].prev == n0[before].prev
            },
            c0.chain@.index_of(x) + 1 < c0.chain@.len() ==> {
                let after = c0.chain@[c0.chain@.index_of(x) + 1];
                &&& n2[after].prev == ptr_at(c0.chain@, c0.chain@.index_of(x) - 1)
                &&& n2[after].next == n0[after].next
            },
        ensures
            c2.wf_but(n2, heap, m, x),
            !c2.chain().contains(x),
    {
        let chain = c0.chain@;
        let at = chain.index_of(x);
        let rest = chain.remove(at);
        assert(chain[at] == x);
        assert forall|k: int| 0 <= k < chain.len() implies 0 <= #[trigger] chain[k] < n0.len() by {
            assert(c0.pages().contains(chain[k]));
            Self::lemma_page_range(c0, n0, heap, m, chain[k]);
        }
        assert forall|y: int| rest.contains(y) <==> (chain.contains(y) && y != x) by {
            if rest.contains(y) {
                let k = choose|k: int| 0 <= k < rest.len() && rest[k] == y;
                let kk = if k < at { k } else { k + 1 };
                assert(chain[kk] == y);
            }
            if chain.contains(y) && y != x {
                let k = choose|k: int| 0 <= k < chain.len() && chain[k] == y;
                let kk = if k < at { k } else { k - 1 };
                assert(rest[kk] == y);
            }
        }
        assert(rest.no_duplicates()) by {
            assert forall|a: int, b: int|
                0 <= a < rest.len() && 0 <= b < rest.len() && a != b implies rest[a] != rest[b] by {
                let aa = if a < at { a } else { a + 1 };
                let bb = if b < at { b } else { b + 1 };
                assert(rest[a] == chain[aa] && rest[b] == chain[bb]);
            }
        }
        assert forall|k: int| 0 <= k < chain.len() implies c0.page_base(
            n0,
            heap,
            m,
            #[trigger] chain[k],
        ) by {
            assert(c0.pages().contains(chain[k]));
        }
        assert forall|i: int| #[trigger] c2.pages().contains(i) implies if i == x {
            c2.page_base(n2, heap, m, i)
        } else {
            c2.page_inv(n2, heap, m, i)
        } by {
            assert(c0.pages().contains(i));
            assert(c0.page_base(n0, heap, m, i));
            Self::lemma_page_range(c0, n0, heap, m, i);
            assert(n2[i] == n0[i].relinked(n2[i].prev, n2[i].next));
            if !chain.contains(i) {
                Self::lemma_page_range(c0, n0, heap, m, i);
                assert(n2[i] == n0[i]);
            }
            Self::lemma_page_relink(c0, c2, n0, n2, heap, m, i);
        }
        assert forall|k: int| 0 <= k < rest.len() implies {
            let i = #[trigger] rest[k];
            &&& c2.pages().contains(i)
            &&& n2[i].prev == ptr_at(rest, k - 1)
            &&& n2[i].next == ptr_at(rest, k + 1)
        } by {
            let kk = if k < at { k } else { k + 1 };
            let i = chain[kk];
            assert(rest[k] == i);
            assert(c0.pages().contains(i));
            assert(n0[i].prev == ptr_at(chain, kk - 1));
            assert(n0[i].next == ptr_at(chain, kk + 1));
            lemma_ptr_remove(chain, at, k - 1);
            lemma_ptr_remove(chain, at, k + 1);
            lemma_ptr_at(chain, kk - 1);
            lemma_ptr_at(chain, kk + 1);
            lemma_ptr_at(chain, at - 1);
            lemma_ptr_at(chain, at + 1);
            assert(i != x);
            if kk != at - 1 && kk != at + 1 {
                if at > 0 {
                    assert(chain[at - 1] != i);
                }
                if at + 1 < chain.len() {
                    assert(chain[at + 1] != i);
                }
                assert(n2[i] == n0[i]);
            }
        }
        lemma_ptr_remove(chain, at, 0);
        match c2.cursor() {
            Some(c) => {
                assert(c0.pages().contains(c.index as int));
                Self::lemma_page_range(c0, n0, heap, m, c.index as int);
                assert(n2[c.index as int] == n0[c.index as int].relinked(
                    n2[c.index as int].prev,
                    n2[c.index as int].next,
                ));
            },
            None => {},
        }
    }

    /// A page of the cache has a record in the table, in which it has no
    /// neighbours unless it is in the chain.
    proof fn lemma_page_range(
        c: KmemPtr,
        nodes: Seq<SlabNode>,
        heap: BuddyModel,
        m: ArenaModel,
        i: int,
    )
        requires
            c.page_base(nodes, heap, m, i),
        ensures
            0 <= i < nodes.len(),
            !c.chain().contains(i) ==> nodes[i].prev.is_none() && nodes[i].next.is_none(),
    {
        reveal(KmemPtr::page_base);
    }

    /// Other neighbours leave a page what it is.
    proof fn lemma_page_relink(
        c0: KmemPtr,
        c2: KmemPtr,
        n0: Seq<SlabNode>,
        n2: Seq<SlabNode>,
        heap: BuddyModel,
        m: ArenaModel,
        i: int,
    )
        requires
            c0.page_base(n0, heap, m, i),
            c2.rank == c0.rank,
            n2.len() == n0.len(),
            n2[i] == n0[i].relinked(n2[i].prev, n2[i].next),
            !c2.chain().contains(i) ==> n2[i].prev.is_none() && n2[i].next.is_none(),
        ensures
            c2.page_base(n2, heap, m, i),
    {
        reveal(KmemPtr::page_base);
    }

    /// Takes a free slot of the cache's class: from the current page, else
    /// from the first partial page, else from a fresh page of the heap.
    /// Returns the address of the slot.
    pub fn allocate(&mut self, table: &mut SlabTable, heap: &mut BuddyAllocator, mem: &mut Arena) -> (addr: usize)
        requires
            heap_fits(old(table), old(heap), old(mem)@),
            old(self).wf(old(table).nodes@, old(heap)@, old(mem)@),
            old(self).needs_page() ==> old(heap).fits(pow2(old(self).class() as nat) as usize, 1),
        ensures
            heap_fits(final(table), final(heap), final(mem)@),
            final(table).base == old(table).base,
            final(table).nodes@.len() == old(table).nodes@.len(),
            final(self).wf(final(table).nodes@, final(heap)@, final(mem)@),
            final(self).class() == old(self).class(),
            final(mem)@.base == old(mem)@.base,
            final(mem)@.words.len() == old(mem)@.words.len(),
            ({
                let i = old(self).serving(old(table), old(heap)@);
                let fresh = old(self).needs_page();
                let page = old(table).nodes@[i];
                &&& 0 <= i < old(table).nodes@.len()
                &&& final(self).pages() == old(self).pages().insert(i)
                &&& fresh ==> !old(self).pages().contains(i)
                &&& fresh ==> addr == old(heap)@.free[old(heap)@.first_fit(12)][0]
                &&& fresh ==> old(heap)@.is_free(addr, old(heap)@.first_fit(12))
                &&& fresh ==> old(table).nodes@[i].phy_addr == addr
                &&& fresh ==> final(table).nodes@[i].live() == Set::<usize>::empty().insert(addr)
                &&& fresh ==> final(table).nodes@[i].free_pieces@ == slots(
                    addr,
                    old(self).class() as nat,
                ).drop_first()
                &&& !fresh ==> page.free_pieces@.len() > 0 && addr == page.free_pieces@[0]
                    && !page.live().contains(addr)
                &&& !fresh ==> final(table).nodes@[i].live() == page.live().insert(addr)
                &&& !fresh ==> final(table).nodes@[i].free_pieces@ == page.free_pieces@.drop_first()
                &&& final(table).nodes@[i].is_slot(addr)
                &&& final(self).cursor() == (if final(table).nodes@[i].free_pieces@.len() == 0 {
                    None
                } else {
                    Some(SlabPtr { index: i as usize })
                })
                &&& final(self).chain() == (if old(self).cursor().is_none() && old(self).head().is_some() {
                    old(self).chain().drop_first()
                } else {
                    old(self).chain()
                })
                &&& forall|j: int|
                    0 <= j < old(table).nodes@.len() && j != i ==> (#[trigger] final(table).nodes@[j]) == old(table).nodes@[j].relinked(
                        final(table).nodes@[j].prev,
                        final(table).nodes@[j].next,
                    )
                &&& forall|j: int|
                    0 <= j < old(table).nodes@.len() && !final(self).pages().contains(j) ==> (
                    #[trigger] final(table).nodes@[j]) == old(table).nodes@[j]
            }),
            old(self).needs_page() ==> {
                &&& final(heap)@.free == old(heap)@.carve(12)
                &&& final(heap)@.live == old(heap)@.live.push(
                    page_block(addr, old(self).class() as nat),
                )
                &&& final(mem)@.agrees_outside(
                    old(mem)@,
                    addr as int,
                    addr + pow2(old(heap)@.first_fit(12) as nat),
                )
                &&& final(heap).user() == old(heap).user() + pow2(old(self).class() as nat)
                &&& final(heap).allocated() == old(heap).allocated() + 4096
            },
            !old(self).needs_page() ==> {
                &&& final(heap)@ == old(heap)@
                &&& final(mem)@ == old(mem)@
                &&& final(heap).user() == old(heap).user()
                &&& final(heap).allocated() == old(heap).allocated()
            },
            final(heap).unit() == old(heap).unit(),
            final(heap).total() == old(heap).total(),
    {
        let ghost n0 = table.nodes@;
        let ghost c0 = *self;
        proof {
            reveal(KmemPtr::page_base);
        }
        // locate the first not full slab
        if self.curr.is_none() {
            if self.next.is_some() {
                proof {
                    lemma_ptr_at(c0.chain(), 0);
                    assert(c0.chain().len() > 0);
                    assert(c0.chain()[0] == c0.serving(table, heap@));
                    assert(c0.pages().contains(c0.chain()[0]));
                }
                self.take_head(table, Ghost(heap@), Ghost(mem@));
                proof {
                    assert(c0.pages().insert(c0.chain()[0]) =~= c0.pages());
                }
            } else {
                self.take_page(table, heap, mem);
                proof {
                    let p = table.nodes@[c0.serving(table, old(heap)@)].phy_addr;
                    lemma_slot(p, self.rank as nat, 0);
                    lemma_pow2_pos((12 - self.rank) as nat);
                }
            }
        } else {
            proof {
                assert(c0.pages().insert(c0.serving(table, heap@)) =~= c0.pages());
            }
        }
        // take the first free piece of the slab
        let slab = self.curr.unwrap();
        let ghost n1 = table.nodes@;
        let ghost c1 = *self;
        let ghost i = slab.index as int;
        proof {
            assert(i == c0.serving(old(table), old(heap)@));
            assert(c1.pages().contains(i));
            assert(c1.page_inv(n1, heap@, mem@, i));
        }
        let piece = table.nodes[slab.index].take_piece(mem);
        let ptr = piece.unwrap();
        if table.nodes[slab.index].free_pieces.is_empty() {
            self.curr = None;
        }
        proof {
            let n2 = table.nodes@;
            assert(n1[i].free_pieces@.contains(ptr)) by {
                assert(n1[i].free_pieces@[0] == ptr);
            }
            assert(n2[i].is_slot(ptr));
            lemma_pow2_pos((12 - self.rank) as nat);
            assert forall|j: int| #[trigger] self.pages().contains(j) implies self.page_inv(
                n2,
                heap@,
                mem@,
                j,
            ) by {
                assert(c1.page_inv(n1, heap@, mem@, j));
                if j != i {
                    assert(n2[j] == n1[j]);
                }
            }
            assert forall|k: int| 0 <= k < self.chain().len() implies {
                let j = #[trigger] self.chain()[k];
                &&& self.pages().contains(j)
                &&& n2[j].prev == ptr_at(self.chain(), k - 1)
                &&& n2[j].next == ptr_at(self.chain(), k + 1)
            } by {
                assert(c1.pages().contains(c1.chain()[k]));
            }
            if c0.needs_page() {
                assert(n2[i].live() =~= Set::<usize>::empty().insert(ptr));
            }
            assert forall|j: int| 0 <= j < n0.len() && j != i implies (#[trigger] n2[j])
                == n0[j].relinked(n2[j].prev, n2[j].next) by {
                assert(n2[j] == n1[j]);
            }
        }
        ptr
    }

    /// After a slot of page `x` has come back, the cache is sound but for
    /// the place of that page.
    proof fn lemma_released(
        c: KmemPtr,
        n0: Seq<SlabNode>,
        n1: Seq<SlabNode>,
        heap: BuddyModel,
        m0: ArenaModel,
        m1: ArenaModel,
        base: usize,
        x: int,
        ptr: usize,
        val: usize,
    )
        requires
            c.wf(n0, heap, m0),
            c.pages().contains(x),
            forall|j: int| 0 <= j < n0.len() ==> (#[trigger] n0[j]).phy_addr == base + j * 4096,
            n1.len() == n0.len(),
            forall|j: int| 0 <= j < n0.len() && j != x ==> #[trigger] n1[j] == n0[j],
            n1[x].phy_addr == n0[x].phy_addr,
            n1[x].rank == n0[x].rank,
            n1[x].prev == n0[x].prev,
            n1[x].next == n0[x].next,
            n1[x].wf(m1),
            n1[x].free_pieces@.len() > 0,
            m0.holds(ptr),
            n0[x].phy_addr <= ptr < n0[x].phy_addr + 4096,
            m1 == m0.store(ptr, val),
        ensures
            c.wf_but(n1, heap, m1, x),
    {
        reveal(KmemPtr::page_base);
        m0.lemma_store(ptr, val);
        assert forall|i: int| #[trigger] c.pages().contains(i) implies if i == x {
            c.page_base(n1, heap, m1, i)
        } else {
            c.page_inv(n1, heap, m1, i)
        } by {
            assert(c.page_inv(n0, heap, m0, i));
            if i != x {
                assert(n1[i] == n0[i]);
                assert(n0[i].phy_addr == base + i * 4096);
                assert(n0[x].phy_addr == base + x * 4096);
                n0[i].lemma_agree(m0, m1);
            }
        }
        assert forall|k: int| 0 <= k < c.chain().len() implies {
            let i = #[trigger] c.chain()[k];
            &&& c.pages().contains(i)
            &&& n1[i].prev == ptr_at(c.chain(), k - 1)
            &&& n1[i].next == ptr_at(c.chain(), k + 1)
        } by {
            let i = c.chain()[k];
            assert(c.pages().contains(i));
            assert(c.page_inv(n0, heap, m0, i));
        }
        match c.cursor() {
            Some(cur) => {
                assert(c.pages().contains(cur.index as int));
                assert(c.page_inv(n0, heap, m0, cur.index as int));
            },
            None => {},
        }
    }

    /// A page that is back in its place makes the cache sound.
    proof fn lemma_settled(c: KmemPtr, nodes: Seq<SlabNode>, heap: BuddyModel, m: ArenaModel, x: int)
        requires
            c.wf_but(nodes, heap, m, x),
            c.pages().contains(x),
            c.cursor() != Some(SlabPtr { index: x as usize }) ==> {
                &&& nodes[x].uses > 0
                &&& (c.chain().contains(x) <==> nodes[x].uses < capacity(c.class() as nat))
            },
        ensures
            c.wf(nodes, heap, m),
    {
    }

    /// A cache that lets go of a page outside its chain is sound wherever
    /// its other pages are as they were.
    proof fn lemma_drop_page(
        c1: KmemPtr,
        c2: KmemPtr,
        nodes: Seq<SlabNode>,
        h1: BuddyModel,
        m1: ArenaModel,
        h2: BuddyModel,
        m2: ArenaModel,
        x: int,
    )
        requires
            c1.wf_but(nodes, h1, m1, x),
            !c1.chain().contains(x),
            c1.pages().contains(x),
            c1.cursor() != Some(SlabPtr { index: x as usize }),
            0 <= x <= usize::MAX,
            c2.rank == c1.rank,
            c2.curr == c1.curr,
            c2.next == c1.next,
            c2.chain@ == c1.chain@,
            c2.pages@ == c1.pages@.remove(x),
            m2.base == m1.base,
            m2.words.len() == m1.words.len(),
            forall|i: int|
                #[trigger] c1.pages().contains(i) && i != x ==> h2.live.contains(
                    page_block(nodes[i].phy_addr, c1.class() as nat),
                ),
            forall|i: int, a: usize|
                #[trigger] c1.pages().contains(i) && i != x && #[trigger] m1.holds(a)
                    && nodes[i].phy_addr <= a < nodes[i].phy_addr + PAGE_SIZE ==> m2.word(a)
                    == m1.word(a),
        ensures
            c2.wf(nodes, h2, m2),
    {
        reveal(KmemPtr::page_base);
        assert forall|i: int| #[trigger] c2.pages().contains(i) implies c2.page_inv(
            nodes,
            h2,
            m2,
            i,
        ) by {
            assert(c1.pages().contains(i) && i != x);
            assert(c1.page_inv(nodes, h1, m1, i));
            nodes[i].lemma_agree(m1, m2);
        }
        assert forall|k: int| 0 <= k < c2.chain().len() implies {
            let i = #[trigger] c2.chain()[k];
            &&& c2.pages().contains(i)
            &&& nodes[i].prev == ptr_at(c2.chain(), k - 1)
            &&& nodes[i].next == ptr_at(c2.chain(), k + 1)
        } by {
            let i = c1.chain()[k];
            assert(c1.pages().contains(i));
            assert(c1.chain().contains(i));
        }
        match c2.cursor() {
            Some(cur) => {
                assert(c1.pages().contains(cur.index as int));
            },
            None => {},
        }
    }

    /// No free block of the heap starts inside a page that is handed out.
    pub proof fn lemma_page_not_node(heap: BuddyModel, m: ArenaModel, page: usize, rank: nat, a: usize)
        requires
            heap.inv(m),
            heap.live.contains(page_block(page, rank)),
            page <= a < page + 4096,
        ensures
            !heap.is_node(a),
    {
        vstd::arithmetic::power2::lemma2_to64();
        if heap.is_node(a) {
            let r = choose|r: int| heap.is_free(a, r);
            let blk = page_block(page, rank);
            let j = choose|j: int| 0 <= j < heap.live.len() && heap.live[j] == blk;
            lemma_pow2_pos(r as nat);
            assert(apart(a as int, r as nat, heap.live[j].addr as int, heap.live[j].rank));
        }
    }

    /// Puts the slot at `ptr` back. A page whose slots were all in use
    /// joins the chain; a page, other than the current one, whose last slot
    /// has come back leaves the chain and goes back to the heap.
    pub fn dealloc(&mut self, table: &mut SlabTable, heap: &mut BuddyAllocator, mem: &mut Arena, ptr: usize)
        requires
            heap_fits(old(table), old(heap), old(mem)@),
            old(self).wf(old(table).nodes@, old(heap)@, old(mem)@),
            old(table).base <= ptr,
            old(self).pages().contains(page_of(old(table).base, ptr)),
            old(table).nodes@[page_of(old(table).base, ptr)].live().contains(ptr),
        ensures
            heap_fits(final(table), final(heap), final(mem)@),
            final(table).base == old(table).base,
            final(table).nodes@.len() == old(table).nodes@.len(),
            final(self).wf(final(table).nodes@, final(heap)@, final(mem)@),
            final(self).class() == old(self).class(),
            final(self).cursor() == old(self).cursor(),
            final(mem)@.base == old(mem)@.base,
            final(mem)@.words.len() == old(mem)@.words.len(),
            ({
                let i = page_of(old(table).base, ptr);
                let page = old(table).nodes@[i];
                let gone = old(self).gives_back(old(table), ptr);
                let joined = if page.free_pieces@.len() == 0 {
                    seq![i] + old(self).chain()
                } else {
                    old(self).chain()
                };
                &&& final(self).pages() == (if gone {
                    old(self).pages().remove(i)
                } else {
                    old(self).pages()
                })
                &&& final(self).chain() == (if gone {
                    joined.remove(joined.index_of(i))
                } else {
                    joined
                })
                &&& final(table).nodes@[i].live() == page.live().remove(ptr)
                &&& final(table).nodes@[i].free_pieces@ == seq![ptr] + page.free_pieces@
                &&& final(table).nodes@[i].uses == page.uses - 1
                &&& forall|j: int|
                    0 <= j < old(table).nodes@.len() && j != i ==> (#[trigger] final(table).nodes@[j]) == old(table).nodes@[j].relinked(
                        final(table).nodes@[j].prev,
                        final(table).nodes@[j].next,
                    )
                &&& forall|j: int|
                    0 <= j < old(table).nodes@.len() && !old(self).pages().contains(j) ==> (
                    #[trigger] final(table).nodes@[j]) == old(table).nodes@[j]
                &&& gone ==> {
                    &&& final(heap)@.free == crate::buddy_model::coalesce(
                        old(heap)@.free,
                        12,
                        page.phy_addr,
                    )
                    &&& final(heap)@.live == old(heap)@.live.remove(
                        old(heap)@.live.index_of(
                            page_block(page.phy_addr, old(self).class() as nat),
                        ),
                    )
                    &&& final(heap).user() == old(heap).user() - pow2(old(self).class() as nat)
                    &&& final(heap).allocated() == old(heap).allocated() - 4096
                    &&& forall|a: usize|
                        #[trigger] old(mem)@.holds(a) && a != ptr && a != page.phy_addr && !old(heap)@.is_node(a) ==> final(mem)@.word(a) == old(mem)@.word(a)
                }
                &&& !gone ==> {
                    &&& final(heap)@ == old(heap)@
                    &&& final(heap).user() == old(heap).user()
                    &&& final(heap).allocated() == old(heap).allocated()
                    &&& final(mem)@ == old(mem)@.store(ptr, crate::linked_list::link_at(page.free_pieces@, 0))
                }
            }),
            final(heap).unit() == old(heap).unit(),
            final(heap).total() == old(heap).total(),
    {
        let ghost n0 = table.nodes@;
        let ghost c0 = *self;
        let ghost h0 = heap@;
        let ghost m0 = mem@;
        let ghost x = page_of(table.base, ptr);
        proof {
            reveal(KmemPtr::page_base);
            assert(c0.page_inv(n0, h0, m0, x));
            assert(n0[x].is_slot(ptr));
            assert(n0[x].phy_addr == table.base + x * 4096);
        }
        let slab = map_slab(table, ptr).unwrap();
        let idx = slab.index;
        // the slab is full
        let was_full = table.nodes[idx].free_pieces.is_empty();
        // free a piece
        table.nodes[idx].release_piece(mem, ptr);
        let ghost n1 = table.nodes@;
        let ghost m1 = mem@;
        let ghost val = crate::linked_list::link_at(n0[x].free_pieces@, 0);
        proof {
            lemma_page_class(self.rank as nat);
            Self::lemma_page_not_node(h0, m0, n0[x].phy_addr, self.rank as nat, ptr);
            n0[x].lemma_slot_held(m0, ptr);
            heap.lemma_store(m0, ptr, val);
            Self::lemma_released(c0, n0, n1, h0, m0, m1, table.base, x, ptr, val);
            lemma_ptr_at(c0.chain(), 0);
        }
        if was_full {
            proof {
                lemma_pow2_pos((12 - self.rank) as nat);
                match c0.cursor() {
                    Some(cur) => {
                        assert(cur.index != idx);
                    },
                    None => {},
                }
            }
            self.push_head(table, slab, Ghost(heap@), Ghost(mem@));
        }
        let ghost n2 = table.nodes@;
        let ghost c2 = *self;
        let ghost joined = if was_full { seq![x] + c0.chain() } else { c0.chain() };
        proof {
            assert(c2.chain() == joined);
            assert(n2[x] == n1[x].relinked(n2[x].prev, n2[x].next));
            assert forall|j: int| 0 <= j < n0.len() && j != x implies (#[trigger] n2[j])
                == n0[j].relinked(n2[j].prev, n2[j].next) by {
                assert(n2[j] == n1[j].relinked(n2[j].prev, n2[j].next));
            }
            if was_full {
                assert(joined[0] == x);
            }
        }
        let is_current = match self.curr {
            Some(cur) => cur.index == idx,
            None => false,
        };
        if table.nodes[idx].uses == 0 && !is_current {
            proof {
                lemma_pow2_pos((12 - self.rank) as nat);
                assert(joined.contains(x));
            }
            self.unlink(table, slab, Ghost(heap@), Ghost(mem@));
            let page = table.nodes[idx].phy_addr;
            let size = block_size(self.rank);
            let ghost n3 = table.nodes@;
            let ghost c3 = *self;
            proof {
                assert(c3.page_base(n3, h0, m1, x));
                assert(n3[x].phy_addr == n0[x].phy_addr);
            }
            heap.dealloc(mem, page, size, 1);
            proof {
                let h2 = heap@;
                let m2 = mem@;
                let blk = page_block(page, self.rank as nat);
                let at = h0.live.index_of(blk);
                assert(h0.live[at] == blk);
                self.pages@ = c3.pages().remove(x);
                assert forall|i: int| #[trigger] c3.pages().contains(i) && i != x implies h2.live.contains(
                    page_block(n3[i].phy_addr, c3.class() as nat),
                ) by {
                    assert(c3.page_inv(n3, h0, m1, i));
                    let b = page_block(n3[i].phy_addr, c3.class() as nat);
                    let j = choose|j: int| 0 <= j < h0.live.len() && h0.live[j] == b;
                    assert(n3[i].phy_addr == table.base + i * 4096);
                    let jj = if j < at { j } else { j - 1 };
                    assert(h2.live[jj] == b);
                }
                assert forall|i: int, a: usize|
                    #[trigger] c3.pages().contains(i) && i != x && #[trigger] m1.holds(a)
                        && n3[i].phy_addr <= a < n3[i].phy_addr + PAGE_SIZE implies m2.word(a)
                    == m1.word(a) by {
                    assert(c3.page_inv(n3, h0, m1, i));
                    assert(n3[i].phy_addr == table.base + i * 4096);
                    Self::lemma_page_not_node(h0, m1, n3[i].phy_addr, c3.class() as nat, a);
                }
                Self::lemma_drop_page(c3, *self, n3, h0, m1, h2, m2, x);
                assert forall|j: int| 0 <= j < n0.len() && j != x implies (#[trigger] n3[j])
                    == n0[j].relinked(n3[j].prev, n3[j].next) by {
                    assert(n3[j] == n2[j].relinked(n3[j].prev, n3[j].next));
                }
                assert forall|a: usize|
                    #[trigger] m0.holds(a) && a != ptr && a != page && !h0.is_node(a) implies m2.word(
                    a,
                ) == m0.word(a) by {
                    m0.lemma_store(ptr, val);
                    assert(m1.holds(a));
                }
            }
        } else {
            proof {
                lemma_pow2_pos((12 - self.rank) as nat);
                Self::lemma_settled(c2, n2, h0, m1, x);
            }
        }
    }

    /// Whether the page of the slot at `ptr` goes back to the heap when the
    /// slot comes back: it does when that is its last slot in use and it is
    /// not the current page.
    pub open spec fn gives_back(&self, table: &SlabTable, ptr: usize) -> bool {
        let i = page_of(table.base, ptr);
        table.nodes@[i].uses == 1 && self.cursor() != Some(SlabPtr { index: i as usize })
    }

    /// The places of the partial pages in the table, in the order of the
    /// chain.
    pub fn chain_pages(&self, table: &SlabTable, heap: &BuddyAllocator, mem: &Arena) -> (pages: Vec<usize>)
        requires
            self.wf(table.nodes@, heap@, mem@),
        ensures
            pages@.len() == self.chain().len(),
            forall|k: int| 0 <= k < pages@.len() ==> #[trigger] pages@[k] == self.chain()[k],
    {
        let mut pages: Vec<usize> = Vec::new();
        let mut cur = self.next;
        let ghost chain = self.chain@;
        let total = table.nodes.len();
        proof {
            lemma_ptr_at(chain, 0);
        }
        loop
            invariant_except_break
                pages@.len() <= chain.len(),
                cur == ptr_at(chain, pages@.len() as int),
            invariant
                total == table.nodes@.len(),
                chain == self.chain(),
                self.wf(table.nodes@, heap@, mem@),
                forall|k: int| 0 <= k < pages@.len() ==> #[trigger] pages@[k] == chain[k],
            ensures
                pages@.len() == chain.len(),
            decreases chain.len() - pages@.len(),
        {
            let ghost k = pages@.len() as int;
            proof {
                lemma_ptr_at(chain, k);
                lemma_ptr_at(chain, k + 1);
                if k < chain.len() {
                    reveal(KmemPtr::page_base);
                    assert(self.pages().contains(chain[k]));
                    assert(self.page_inv(table.nodes@, heap@, mem@, chain[k]));
                }
            }
            match cur {
                None => {
                    break ;
                },
                Some(slab) => {
                    proof {
                        assert(0 <= chain[k] < table.nodes@.len());
                        assert(slab.index == chain[k]);
                        assert(table.nodes@[chain[k]].next == ptr_at(chain, k + 1));
                    }
                    pages.push(slab.index);
                    cur = table.nodes[slab.index].next;
                },
            }
        }
        pages
    }

    /// The place of the current page in the table, if there is one.
    pub fn current_page(&self) -> (page: Option<usize>)
        ensures
            page == match self.cursor() {
                Some(c) => Some(c.index),
                None => None,
            },
    {
        match self.curr {
            Some(c) => Some(c.index),
            None => None,
        }
    }

    /// The page that the next slot comes from: the current page, else the
    /// first page of the chain, else a fresh page from the heap.
    pub open spec fn serving(&self, table: &SlabTable, heap: BuddyModel) -> int {
        match self.cursor() {
            Some(c) => c.index as int,
            None => match self.head() {
                Some(h) => h.index as int,
                None => page_of(table.base, heap.free[heap.first_fit(12)][0]),
            },
        }
    }

    /// Whether the next slot comes from a fresh page.
    pub open spec fn needs_page(&self) -> bool {
        self.cursor().is_none() && self.head().is_none()
    }
}

} // verus!

verus! {

/// A request for one slot's bytes is served by the buddy allocator with a
/// whole page.
pub proof fn lemma_page_class(rank: nat)
    requires
        rank < 12,
    ensures
        class_rank(pow2(rank), 1, 4096) == 12,
        crate::buddy_model::is_power_of_two(1),
        pow2(12) == 4096,
        pow2(rank) < 4096,
{
    vstd::arithmetic::power2::lemma2_to64();
    crate::bits::lemma_ceil_log2_pow2(12);
    crate::bits::lemma_ceil_log2_pow2(0);
    vstd::arithmetic::power2::lemma_pow2_strictly_increases(rank, 12);
}

} // verus!

verus! {

/// The size class that serves a request of `size` bytes: that of the least
/// power of two that holds it, and of a machine word at least.
pub open spec fn slot_rank(size: nat) -> nat {
    if ceil_log2(size) < 3 {
        3
    } else {
        ceil_log2(size)
    }
}

/// Slots in use on the pages `held`, taken together.
pub open spec fn total_uses(nodes: Seq<SlabNode>, held: Seq<int>) -> nat
    decreases held.len(),
{
    if held.len() == 0 {
        0
    } else {
        total_uses(nodes, held.drop_last()) + (nodes[held.last()].uses as nat)
    }
}

impl KmemPtr {
    /// No page of the cache has more slots in use than it has slots, and a
    /// page other than the current one is in the chain of partial pages if
    /// and only if it has a slot in use and a free slot.
    pub proof fn lemma_partial_chain(&self, nodes: Seq<SlabNode>, heap: BuddyModel, m: ArenaModel, i: int)
        requires
            self.wf(nodes, heap, m),
            self.pages().contains(i),
        ensures
            nodes[i].uses <= capacity(self.class() as nat),
            self.cursor() != Some(SlabPtr { index: i as usize }) ==> (self.chain().contains(i) <==> 0
                < nodes[i].uses < capacity(self.class() as nat)),
    {
        reveal(KmemPtr::page_base);
        assert(self.page_inv(nodes, heap, m, i));
    }

    /// The slots in use on any pages of the cache are no more than the pages
    /// have slots.
    pub proof fn lemma_live_bound(&self, nodes: Seq<SlabNode>, heap: BuddyModel, m: ArenaModel, held: Seq<int>)
        requires
            self.wf(nodes, heap, m),
            forall|k: int| 0 <= k < held.len() ==> self.pages().contains(#[trigger] held[k]),
        ensures
            total_uses(nodes, held) <= capacity(self.class() as nat) * held.len(),
        decreases held.len(),
    {
        if held.len() > 0 {
            let rest = held.drop_last();
            assert forall|k: int| 0 <= k < rest.len() implies self.pages().contains(
                #[trigger] rest[k],
            ) by {
                assert(rest[k] == held[k]);
            }
            self.lemma_live_bound(nodes, heap, m, rest);
            assert(self.pages().contains(held[held.len() - 1]));
            self.lemma_partial_chain(nodes, heap, m, held.last());
            let cap = capacity(self.class() as nat) as int;
            let n = held.len() as int;
            assert(cap * (n - 1) + cap == cap * n) by (nonlinear_arith);
        } else {
            assert(capacity(self.class() as nat) * 0 == 0) by (nonlinear_arith);
        }
    }
}

/// The caches of all size classes below a page.
pub struct SlubAllocator {
    kmem_caches: Vec<KmemPtr>,
}

impl SlubAllocator {
    /// The caches, by size class.
    pub closed spec fn caches(&self) -> Seq<KmemPtr> {
        self.kmem_caches@
    }

    /// Each cache that can hold a page is sound and knows its class.
    pub open spec fn wf(&self, nodes: Seq<SlabNode>, heap: BuddyModel, m: ArenaModel) -> bool {
        &&& self.caches().len() == 12
        &&& forall|r: int|
            3 <= r < 12 ==> (#[trigger] self.caches()[r]).class() == r && self.caches()[r].wf(
                nodes,
                heap,
                m,
            )
    }

    /// The slot of class `rank` at `ptr` is handed out.
    pub open spec fn is_live(&self, table: &SlabTable, ptr: usize, rank: int) -> bool {
        &&& 3 <= rank < 12
        &&& table.base <= ptr
        &&& self.caches()[rank].pages().contains(page_of(table.base, ptr))
        &&& table.nodes@[page_of(table.base, ptr)].live().contains(ptr)
    }

    /// Whether a request of `size` bytes can be served: the class has a
    /// page with a free slot, or the heap can give one.
    pub open spec fn fits(&self, heap: &BuddyAllocator, size: usize) -> bool {
        let cache = self.caches()[slot_rank(size as nat) as int];
        cache.needs_page() ==> heap.fits(pow2(slot_rank(size as nat)) as usize, 1)
    }

    /// The address that the next request of `size` bytes gets: the first
    /// free slot of the page that serves the class, which is the page itself
    /// where the heap has to give a fresh one.
    pub open spec fn next_slot(&self, table: &SlabTable, heap: BuddyModel, size: usize) -> usize {
        let cache = self.caches()[slot_rank(size as nat) as int];
        if cache.needs_page() {
            heap.free[heap.first_fit(12)][0]
        } else {
            table.nodes@[cache.serving(table, heap)].free_pieces@[0]
        }
    }

    /// A step of the heap that keeps every slab page live and its words as
    /// they were leaves the caches sound.
    pub proof fn lemma_heap_step(
        &self,
        nodes: Seq<SlabNode>,
        h1: BuddyModel,
        m1: ArenaModel,
        h2: BuddyModel,
        m2: ArenaModel,
    )
        requires
            self.wf(nodes, h1, m1),
            m2.base == m1.base,
            m2.words.len() == m1.words.len(),
            forall|b: LiveBlock| #[trigger] h1.live.contains(b) && b.size < 4096 ==> h2.live.contains(b),
            forall|a: usize, k: int|
                #[trigger] m1.holds(a) && 0 <= k < h1.live.len() && (#[trigger] h1.live[k]).size
                    < 4096 && h1.live[k].addr <= a < h1.live[k].addr + pow2(h1.live[k].rank)
                    ==> m2.word(a) == m1.word(a),
        ensures
            self.wf(nodes, h2, m2),
    {
        reveal(KmemPtr::page_base);
        vstd::arithmetic::power2::lemma2_to64();
        assert forall|q: int| 3 <= q < 12 implies (#[trigger] self.caches()[q]).class() == q
            && self.caches()[q].wf(nodes, h2, m2) by {
            let cq = self.caches()[q];
            assert forall|j: int| #[trigger] cq.pages().contains(j) implies h2.live.contains(
                page_block(nodes[j].phy_addr, cq.class() as nat),
            ) && (forall|a: usize|
                #[trigger] m1.holds(a) && nodes[j].phy_addr <= a < nodes[j].phy_addr + PAGE_SIZE
                    ==> m2.word(a) == m1.word(a)) by {
                assert(cq.page_inv(nodes, h1, m1, j));
                let blk = page_block(nodes[j].phy_addr, cq.class() as nat);
                lemma_page_class(q as nat);
                let k = choose|k: int| 0 <= k < h1.live.len() && h1.live[k] == blk;
                assert(h1.live[k].size < 4096);
            }
            cq.lemma_frame(nodes, h1, m1, nodes, h2, m2);
        }
    }

    /// Caches that hold no page and do not know their class yet.
    pub fn empty() -> (slub: SlubAllocator)
        ensures
            slub.caches().len() == 12,
            forall|r: int|
                0 <= r < 12 ==> {
                    let cache = #[trigger] slub.caches()[r];
                    &&& cache.class() == 0
                    &&& cache.needs_page()
                    &&& cache.pages() == Set::<int>::empty()
                    &&& cache.chain() == Seq::<int>::empty()
                },
    {
        let mut kmem_caches: Vec<KmemPtr> = Vec::new();
        let mut i: usize = 0;
        while i < 12
            invariant
                i <= 12,
                kmem_caches@.len() == i,
                forall|r: int|
                    0 <= r < i ==> {
                        let cache = #[trigger] kmem_caches@[r];
                        &&& cache.class() == 0
                        &&& cache.needs_page()
                        &&& cache.pages() == Set::<int>::empty()
                        &&& cache.chain() == Seq::<int>::empty()
                    },
            decreases 12 - i,
        {
            kmem_caches.push(KmemPtr::empty());
            i += 1;
        }
        SlubAllocator { kmem_caches }
    }

    /// Tells each cache its size class.
    pub fn init(&mut self)
        requires
            old(self).caches().len() == 12,
            forall|r: int|
                0 <= r < 12 ==> {
                    let cache = #[trigger] old(self).caches()[r];
                    &&& cache.needs_page()
                    &&& cache.pages() == Set::<int>::empty()
                    &&& cache.chain() == Seq::<int>::empty()
                },
        ensures
            final(self).caches().len() == 12,
            forall|r: int|
                0 <= r < 12 ==> {
                    let cache = #[trigger] final(self).caches()[r];
                    &&& cache.class() == r
                    &&& cache.needs_page()
                    &&& cache.pages() == Set::<int>::empty()
                    &&& cache.chain() == Seq::<int>::empty()
                },
            forall|nodes: Seq<SlabNode>, heap: BuddyModel, m: ArenaModel| #[trigger]
                final(self).wf(nodes, heap, m),
    {
        let mut i: usize = 0;
        while i < 12
            invariant
                i <= 12,
                self.kmem_caches@.len() == 12,
                forall|r: int|
                    0 <= r < 12 ==> {
                        let cache = #[trigger] self.kmem_caches@[r];
                        &&& cache.needs_page()
                        &&& cache.pages() == Set::<int>::empty()
                        &&& cache.chain() == Seq::<int>::empty()
                    },
                forall|r: int| 0 <= r < i ==> (#[trigger] self.kmem_caches@[r]).class() == r,
            decreases 12 - i,
        {
            self.kmem_caches[i].rank = i;
            i += 1;
        }
        proof {
            assert forall|nodes: Seq<SlabNode>, heap: BuddyModel, m: ArenaModel| #[trigger]
                self.wf(nodes, heap, m) by {
                assert forall|r: int| 3 <= r < 12 implies (#[trigger] self.caches()[r]).class() == r
                    && self.caches()[r].wf(nodes, heap, m) by {
                    lemma_ptr_at(self.caches()[r].chain(), 0);
                }
            }
        }
    }

    /// The size class that serves a request of `size` bytes.
    fn rank_of(size: usize) -> (rank: usize)
        requires
            size <= 2048,
        ensures
            rank == slot_rank(size as nat),
            3 <= rank < 12,
    {
        let class = crate::bits::next_power_of_two(size);
        proof {
            vstd::arithmetic::power2::lemma2_to64();
            crate::bits::lemma_ceil_log2_monotone(size as nat, pow2(11));
            crate::bits::lemma_ceil_log2_pow2(11);
            crate::bits::lemma_low_zeros_pow2(ceil_log2(size as nat));
        }
        let rank = crate::bits::trailing_zeros(class);
        if rank < 3 {
            3
        } else {
            rank
        }
    }

    /// The places of the partial pages of the size class of `size` bytes in
    /// the table, in the order of the chain.
    pub fn chain_pages(&self, table: &SlabTable, heap: &BuddyAllocator, mem: &Arena, size: usize) -> (pages: Vec<usize>)
        requires
            self.wf(table.nodes@, heap@, mem@),
            size <= 2048,
        ensures
            pages@.len() == self.caches()[slot_rank(size as nat) as int].chain().len(),
            forall|k: int|
                0 <= k < pages@.len() ==> #[trigger] pages@[k] == self.caches()[slot_rank(
                    size as nat,
                ) as int].chain()[k],
    {
        let rank = Self::rank_of(size);
        self.kmem_caches[rank].chain_pages(table, heap, mem)
    }

    /// The place of the current page of the size class of `size` bytes in
    /// the table, if there is one.
    pub fn current_page(&self, size: usize) -> (page: Option<usize>)
        requires
            self.caches().len() == 12,
            size <= 2048,
        ensures
            page == match self.caches()[slot_rank(size as nat) as int].cursor() {
                Some(c) => Some(c.index),
                None => None,
            },
    {
        let rank = Self::rank_of(size);
        self.kmem_caches[rank].current_page()
    }

    /// Whether a request of `size` bytes can be served.
    pub fn can_alloc(&self, table: &SlabTable, heap: &BuddyAllocator, mem: &Arena, size: usize) -> (b: bool)
        requires
            heap_fits(table, heap, mem@),
            self.wf(table.nodes@, heap@, mem@),
            size <= 2048,
        ensures
            b == self.fits(heap, size),
    {
        let rank = Self::rank_of(size);
        if self.kmem_caches[rank].curr.is_none() && self.kmem_caches[rank].next.is_none() {
            proof {
                lemma_page_class(rank as nat);
                lemma_pow2_rank(rank as nat);
            }
            heap.can_alloc(mem, block_size(rank), 1)
        } else {
            true
        }
    }

    /// Takes a free slot that holds `size` bytes. Returns its address.
    pub fn allocate(
        &mut self,
        table: &mut SlabTable,
        heap: &mut BuddyAllocator,
        mem: &mut Arena,
        size: usize,
    ) -> (addr: usize)
        requires
            heap_fits(old(table), old(heap), old(mem)@),
            old(self).wf(old(table).nodes@, old(heap)@, old(mem)@),
            size <= 2048,
            old(self).fits(old(heap), size),
        ensures
            heap_fits(final(table), final(heap), final(mem)@),
            final(table).base == old(table).base,
            final(table).nodes@.len() == old(table).nodes@.len(),
            final(self).wf(final(table).nodes@, final(heap)@, final(mem)@),
            final(mem)@.base == old(mem)@.base,
            final(mem)@.words.len() == old(mem)@.words.len(),
            addr == old(self).next_slot(old(table), old(heap)@, size),
            !old(self).is_live(old(table), addr, slot_rank(size as nat) as int),
            forall|p: usize, r: int|
                final(self).is_live(final(table), p, r) <==> old(self).is_live(old(table), p, r)
                    || (p == addr && r == slot_rank(size as nat)),
            final(table).nodes@[page_of(old(table).base, addr)].is_slot(addr),
            final(table).nodes@[page_of(old(table).base, addr)].rank == slot_rank(size as nat),
            final(heap).unit() == old(heap).unit(),
            final(heap).total() == old(heap).total(),
            old(self).caches()[slot_rank(size as nat) as int].needs_page() ==> {
                &&& final(heap)@.free == old(heap)@.carve(12)
                &&& final(heap)@.live == old(heap)@.live.push(
                    page_block(addr, slot_rank(size as nat)),
                )
                &&& final(heap).user() == old(heap).user() + pow2(slot_rank(size as nat))
                &&& final(heap).allocated() == old(heap).allocated() + 4096
            },
            !old(self).caches()[slot_rank(size as nat) as int].needs_page() ==> {
                &&& final(heap)@ == old(heap)@
                &&& final(heap).user() == old(heap).user()
                &&& final(heap).allocated() == old(heap).allocated()
            },
    {
        let rank = Self::rank_of(size);
        let ghost n0 = table.nodes@;
        let ghost h0 = heap@;
        let ghost m0 = mem@;
        let ghost caches = self.kmem_caches@;
        let ghost base = table.base;
        let addr = self.kmem_caches[rank].allocate(table, heap, mem);
        proof {
            reveal(KmemPtr::page_base);
            let n2 = table.nodes@;
            let h2 = heap@;
            let m2 = mem@;
            let c0 = caches[rank as int];
            let c2 = self.kmem_caches@[rank as int];
            let i = c0.serving(old(table), h0);
            let fresh = c0.needs_page();
            lemma_page_class(rank as nat);
            lemma_ptr_at(c0.chain(), 0);
            if !fresh {
                match c0.cursor() {
                    Some(cur) => {},
                    None => {
                        assert(c0.pages().contains(c0.chain()[0]));
                    },
                }
                assert(c0.pages().contains(i));
            }
            assert(i == page_of(base, addr)) by {
                if fresh {
                    assert(n0[i].phy_addr == base + i * 4096);
                } else {
                    assert(c0.pages().contains(i));
                    assert(c0.page_inv(n0, h0, m0, i));
                    assert(n0[i].is_slot(addr)) by {
                        assert(n0[i].free_pieces@[0] == addr);
                    }
                    assert(n0[i].phy_addr == base + i * 4096);
                }
            }
            assert forall|q: int| 3 <= q < 12 && q != rank implies (#[trigger] self.caches()[q]).wf(
                n2,
                h2,
                m2,
            ) by {
                let cq = caches[q];
                assert(self.caches()[q] == cq);
                assert(cq.wf(n0, h0, m0));
                assert forall|j: int| #[trigger] cq.pages().contains(j) implies n2[j] == n0[j]
                    && h2.live.contains(page_block(n0[j].phy_addr, cq.class() as nat)) && (forall|
                    a: usize,
                |
                    #[trigger] m0.holds(a) && n0[j].phy_addr <= a < n0[j].phy_addr + PAGE_SIZE
                        ==> m2.word(a) == m0.word(a)) by {
                    assert(cq.page_inv(n0, h0, m0, j));
                    assert(n0[j].phy_addr == base + j * 4096);
                    if c0.pages().contains(j) {
                        assert(c0.page_inv(n0, h0, m0, j));
                    }
                    let blk = page_block(n0[j].phy_addr, cq.class() as nat);
                    let k = choose|k: int| 0 <= k < h0.live.len() && h0.live[k] == blk;
                    if fresh {
                        let top = h0.first_fit(12);
                        assert(h0.is_node(addr));
                        if j == i {
                            KmemPtr::lemma_page_not_node(h0, m0, n0[j].phy_addr, q as nat, addr);
                        }
                        assert(j != i);
                        assert(h2.live[k] == blk);
                        assert(apart(addr as int, top as nat, h0.live[k].addr as int, 12));
                    }
                    assert(!c2.pages().contains(j));
                }
                cq.lemma_frame(n0, h0, m0, n2, h2, m2);
            }
            assert forall|r: int| 3 <= r < 12 implies (#[trigger] self.caches()[r]).class() == r
                && self.caches()[r].wf(n2, h2, m2) by {}
            assert forall|p: usize, r: int|
                self.is_live(table, p, r) <==> old(self).is_live(old(table), p, r) || (p == addr
                    && r == rank) by {
                if 3 <= r < 12 && base <= p {
                    let j = page_of(base, p);
                    if r != rank {
                        let cq = caches[r];
                        assert(self.caches()[r] == cq);
                        if cq.pages().contains(j) {
                            assert(cq.page_inv(n0, h0, m0, j));
                            if c0.pages().contains(j) {
                                assert(c0.page_inv(n0, h0, m0, j));
                            }
                            if fresh && j == i {
                                KmemPtr::lemma_page_not_node(
                                    h0,
                                    m0,
                                    n0[j].phy_addr,
                                    r as nat,
                                    addr,
                                );
                                assert(h0.is_node(addr));
                            }
                            assert(n2[j] == n0[j]);
                        }
                    } else {
                        if j != i {
                            if c0.pages().contains(j) {
                                assert(c0.page_inv(n0, h0, m0, j));
                                assert(n2[j] == n0[j].relinked(n2[j].prev, n2[j].next));
                            }
                        } else {
                            if !fresh {
                                assert(c0.pages().insert(i) =~= c0.pages());
                            }
                        }
                    }
                }
            }
            assert(c2.pages().contains(i));
            assert(c2.page_inv(n2, h2, m2, i));
        }
        addr
    }

    /// Puts the slot at `ptr`, which was taken for `size` bytes, back.
    pub fn dealloc(
        &mut self,
        table: &mut SlabTable,
        heap: &mut BuddyAllocator,
        mem: &mut Arena,
        ptr: usize,
        size: usize,
    )
        requires
            heap_fits(old(table), old(heap), old(mem)@),
            old(self).wf(old(table).nodes@, old(heap)@, old(mem)@),
            size <= 2048,
            old(self).is_live(old(table), ptr, slot_rank(size as nat) as int),
        ensures
            heap_fits(final(table), final(heap), final(mem)@),
            final(table).base == old(table).base,
            final(table).nodes@.len() == old(table).nodes@.len(),
            final(self).wf(final(table).nodes@, final(heap)@, final(mem)@),
            final(mem)@.base == old(mem)@.base,
            final(mem)@.words.len() == old(mem)@.words.len(),
            forall|p: usize, r: int|
                final(self).is_live(final(table), p, r) <==> old(self).is_live(old(table), p, r)
                    && !(p == ptr && r == slot_rank(size as nat)),
            final(heap).unit() == old(heap).unit(),
            final(heap).total() == old(heap).total(),
            ({
                let cache = old(self).caches()[slot_rank(size as nat) as int];
                let page = old(table).nodes@[page_of(old(table).base, ptr)];
                if cache.gives_back(old(table), ptr) {
                    &&& final(heap)@.free == crate::buddy_model::coalesce(
                        old(heap)@.free,
                        12,
                        page.phy_addr,
                    )
                    &&& final(heap)@.live == old(heap)@.live.remove(
                        old(heap)@.live.index_of(
                            page_block(page.phy_addr, slot_rank(size as nat)),
                        ),
                    )
                    &&& final(heap).user() == old(heap).user() - pow2(slot_rank(size as nat))
                    &&& final(heap).allocated() == old(heap).allocated() - 4096
                } else {
                    &&& final(heap)@ == old(heap)@
                    &&& final(heap).user() == old(heap).user()
                    &&& final(heap).allocated() == old(heap).allocated()
                }
            }),
    {
        let rank = Self::rank_of(size);
        let ghost n0 = table.nodes@;
        let ghost h0 = heap@;
        let ghost m0 = mem@;
        let ghost caches = self.kmem_caches@;
        let ghost base = table.base;
        self.kmem_caches[rank].dealloc(table, heap, mem, ptr);
        proof {
            reveal(KmemPtr::page_base);
            let n2 = table.nodes@;
            let h2 = heap@;
            let m2 = mem@;
            let c0 = caches[rank as int];
            let c2 = self.kmem_caches@[rank as int];
            let i = page_of(base, ptr);
            let gone = c0.gives_back(old(table), ptr);
            lemma_page_class(rank as nat);
            assert(c0.page_inv(n0, h0, m0, i));
            assert(n0[i].phy_addr == base + i * 4096);
            n0[i].lemma_slot_held(m0, ptr);
            m0.lemma_store(ptr, crate::linked_list::link_at(n0[i].free_pieces@, 0));
            let blk0 = page_block(n0[i].phy_addr, rank as nat);
            let at = h0.live.index_of(blk0);
            assert(h0.live[at] == blk0);
            assert forall|q: int| 3 <= q < 12 && q != rank implies (#[trigger] self.caches()[q]).wf(
                n2,
                h2,
                m2,
            ) by {
                let cq = caches[q];
                assert(self.caches()[q] == cq);
                assert(cq.wf(n0, h0, m0));
                assert forall|j: int| #[trigger] cq.pages().contains(j) implies n2[j] == n0[j]
                    && h2.live.contains(page_block(n0[j].phy_addr, cq.class() as nat)) && (forall|
                    a: usize,
                |
                    #[trigger] m0.holds(a) && n0[j].phy_addr <= a < n0[j].phy_addr + PAGE_SIZE
                        ==> m2.word(a) == m0.word(a)) by {
                    assert(cq.page_inv(n0, h0, m0, j));
                    assert(n0[j].phy_addr == base + j * 4096);
                    if c0.pages().contains(j) {
                        assert(c0.page_inv(n0, h0, m0, j));
                    }
                    let blk = page_block(n0[j].phy_addr, cq.class() as nat);
                    let k = choose|k: int| 0 <= k < h0.live.len() && h0.live[k] == blk;
                    if gone {
                        let kk = if k < at { k } else { k - 1 };
                        assert(h2.live[kk] == blk);
                        assert forall|a: usize|
                            #[trigger] m0.holds(a) && n0[j].phy_addr <= a < n0[j].phy_addr
                                + PAGE_SIZE implies m2.word(a) == m0.word(a) by {
                            KmemPtr::lemma_page_not_node(h0, m0, n0[j].phy_addr, q as nat, a);
                        }
                    }
                }
                cq.lemma_frame(n0, h0, m0, n2, h2, m2);
            }
            assert forall|r: int| 3 <= r < 12 implies (#[trigger] self.caches()[r]).class() == r
                && self.caches()[r].wf(n2, h2, m2) by {}
            assert forall|p: usize, r: int|
                self.is_live(table, p, r) <==> old(self).is_live(old(table), p, r) && !(p == ptr
                    && r == rank) by {
                if 3 <= r < 12 && base <= p {
                    let j = page_of(base, p);
                    if r != rank {
                        let cq = caches[r];
                        assert(self.caches()[r] == cq);
                        if cq.pages().contains(j) {
                            assert(cq.page_inv(n0, h0, m0, j));
                            if c0.pages().contains(j) {
                                assert(c0.page_inv(n0, h0, m0, j));
                            }
                            assert(n2[j] == n0[j]);
                        }
                    } else {
                        if j != i {
                            if c0.pages().contains(j) {
                                assert(c0.page_inv(n0, h0, m0, j));
                                assert(n2[j] == n0[j].relinked(n2[j].prev, n2[j].next));
                            }
                        } else {
                            if gone {
                                // the last slot of the page was the one at `ptr`
                                assert(n0[i].live().len() == 1);
                                if n0[i].live().contains(p) && p != ptr {
                                    let rest = n0[i].live().remove(ptr);
                                    assert(rest.contains(p));
                                    assert(rest.len() == 0);
                                    rest.lemma_len0_is_empty();
                                }
                            }
                        }
                    }
                }
            }
        }
    }
}

} // verus!
