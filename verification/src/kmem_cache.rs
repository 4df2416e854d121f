//! Slab pages: one page of the heap cut into slots of one size, with the
//! free slots on an intrusive list inside the page itself. The records of
//! all pages stand in one table, found by a page's offset from the heap's
//! base.

use vstd::prelude::*;
use vstd::arithmetic::power2::{lemma_pow2_pos, pow2};
use crate::arena::{Arena, ArenaModel};
use crate::bits::{block_size, lemma_pow2_mod, lemma_pow2_rank};
use crate::config::{PAGE_SIZE, PAGE_SIZE_BITS};
use crate::linked_list::{lemma_linked_agree, link_at, LinkedList};

verus! {

/// A reference to the record of a slab page: its place in the table.
#[derive(Clone, Copy, PartialEq, Eq, Structural)]
pub struct SlabPtr {
    pub index: usize,
}

/// The slots that a page at `base` is cut into for the size class `rank`,
/// lowest address first.
pub open spec fn slots(base: usize, rank: nat) -> Seq<usize> {
    Seq::new(pow2((12 - rank) as nat), |i: int| (base + i * pow2(rank)) as usize)
}

/// Number of slots of class `rank` in one page.
pub open spec fn capacity(rank: nat) -> nat {
    pow2((12 - rank) as nat)
}

/// The record of one slab page.
pub struct SlabNode {
    pub phy_addr: usize,
    pub rank: usize,
    pub free_pieces: LinkedList,
    pub uses: usize,
    pub prev: Option<SlabPtr>,
    pub next: Option<SlabPtr>,
    pub live: Ghost<Set<usize>>,
}

impl SlabNode {
    /// The slots that are handed out.
    pub open spec fn live(&self) -> Set<usize> {
        self.live@
    }

    /// `addr` is where a slot of this page starts.
    pub open spec fn is_slot(&self, addr: usize) -> bool {
        &&& self.phy_addr <= addr < self.phy_addr + PAGE_SIZE
        &&& (addr - self.phy_addr) % (pow2(self.rank as nat) as int) == 0
    }

    /// The page is cut into slots of the class `rank`, each of which is
    /// either on the free list or handed out, and `uses` counts the latter.
    pub open spec fn wf(&self, m: ArenaModel) -> bool {
        &&& 3 <= self.rank < 12
        &&& self.phy_addr % 8 == 0
        &&& m.holds_range(self.phy_addr as int, PAGE_SIZE as int)
        &&& self.free_pieces.wf(m)
        &&& forall|i: int|
            0 <= i < self.free_pieces@.len() ==> self.is_slot(#[trigger] self.free_pieces@[i])
        &&& self.live().finite()
        &&& self.live().len() == self.uses
        &&& forall|a: usize| #[trigger]
            self.live().contains(a) ==> self.is_slot(a) && !self.free_pieces@.contains(a)
        &&& self.uses + self.free_pieces@.len() == capacity(self.rank as nat)
    }

    /// An arena of the same extent that holds the same words inside the
    /// page holds the page's free list.
    pub proof fn lemma_agree(&self, m1: ArenaModel, m2: ArenaModel)
        requires
            self.wf(m1),
            m2.base == m1.base,
            m2.words.len() == m1.words.len(),
            forall|a: usize|
                #[trigger] m1.holds(a) && self.phy_addr <= a < self.phy_addr + PAGE_SIZE
                    ==> m2.word(a) == m1.word(a),
        ensures
            self.wf(m2),
    {
        let nodes = self.free_pieces@;
        assert forall|i: int| 0 <= i < nodes.len() implies m2.word(#[trigger] nodes[i]) == m1.word(
            nodes[i],
        ) by {
            assert(self.is_slot(nodes[i]));
            assert(m1.holds(nodes[i]));
        }
        lemma_linked_agree(m1, m2, nodes);
    }

    /// Each slot of the page is a word of the arena.
    pub proof fn lemma_slot_held(&self, m: ArenaModel, a: usize)
        requires
            self.wf(m),
            self.is_slot(a),
        ensures
            m.holds(a),
    {
        lemma_pow2_rank(self.rank as nat);
        lemma_pow2_mod(self.rank as nat, 3);
        vstd::arithmetic::power2::lemma2_to64();
        crate::bits::lemma_mod_trans(a - self.phy_addr, pow2(self.rank as nat) as int, 8);
    }

    /// The same page with other neighbours in the chain.
    pub open spec fn relinked(&self, prev: Option<SlabPtr>, next: Option<SlabPtr>) -> SlabNode {
        SlabNode {
            phy_addr: self.phy_addr,
            rank: self.rank,
            free_pieces: self.free_pieces,
            uses: self.uses,
            prev,
            next,
            live: self.live,
        }
    }

    /// The record of no page.
    pub fn empty() -> (node: SlabNode)
        ensures
            node.phy_addr == 0,
            node.rank == 0,
            node.free_pieces@.len() == 0,
            node.uses == 0,
            node.prev.is_none(),
            node.next.is_none(),
            node.live() == Set::<usize>::empty(),
    {
        SlabNode {
            phy_addr: 0,
            rank: 0,
            free_pieces: LinkedList::new(),
            uses: 0,
            prev: None,
            next: None,
            live: Ghost(Set::empty()),
        }
    }

    /// Cuts the page into free slots of the class `rank`: the highest slot
    /// is pushed first, so that the lowest is handed out first.
    pub fn new(&mut self, mem: &mut Arena)
        requires
            old(mem)@.wf(),
            3 <= old(self).rank < 12,
            old(self).phy_addr % 8 == 0,
            old(mem)@.holds_range(old(self).phy_addr as int, PAGE_SIZE as int),
        ensures
            final(mem)@.wf(),
            final(mem)@.agrees_outside(
                old(mem)@,
                old(self).phy_addr as int,
                old(self).phy_addr + PAGE_SIZE,
            ),
            final(self).phy_addr == old(self).phy_addr,
            final(self).rank == old(self).rank,
            final(self).prev == old(self).prev,
            final(self).next == old(self).next,
            final(self).uses == 0,
            final(self).live() == Set::<usize>::empty(),
            final(self).free_pieces@ == slots(old(self).phy_addr, old(self).rank as nat),
            final(self).wf(final(mem)@),
    {
        let ghost m0 = mem@;
        let size = block_size(self.rank);
        let base = self.phy_addr;
        let rank = self.rank;
        proof {
            lemma_pow2_mod(12, rank as nat);
            vstd::arithmetic::power2::lemma2_to64();
            lemma_pow2_pos((12 - rank) as nat);
            vstd::arithmetic::div_mod::lemma_div_multiples_vanish(
                pow2((12 - rank) as nat) as int,
                size as int,
            );
            assert(pow2((12 - rank) as nat) * size == size * pow2((12 - rank) as nat))
                by (nonlinear_arith);
        }
        let count = PAGE_SIZE / size;
        self.free_pieces = LinkedList::new();
        self.uses = 0;
        self.live = Ghost(Set::empty());
        let mut i: usize = count;
        while i > 0
            invariant
                0 <= i <= count,
                count == pow2((12 - rank) as nat),
                size == pow2(rank as nat),
                count * size == 4096,
                3 <= rank < 12,
                base % 8 == 0,
                m0.wf(),
                m0.holds_range(base as int, 4096),
                mem@.wf(),
                mem@.agrees_outside(m0, base as int, base + 4096),
                self.phy_addr == base,
                self.rank == rank,
                self.prev == old(self).prev,
                self.next == old(self).next,
                self.uses == 0,
                self.live@ == Set::<usize>::empty(),
                self.free_pieces.wf(mem@),
                self.free_pieces@ == Seq::new(
                    (count - i) as nat,
                    |j: int| (base + (i + j) * size) as usize,
                ),
            decreases i,
        {
            let ghost before = self.free_pieces@;
            let ghost m = mem@;
            i = i - 1;
            proof {
                lemma_pow2_rank(rank as nat);
                assert(i * size + size <= count * size) by (nonlinear_arith)
                    requires
                        i + 1 <= count,
                        size > 0,
                ;
                assert((i * size) % 8 == 0) by {
                    crate::bits::lemma_pow2_mod(rank as nat, 3);
                    vstd::arithmetic::div_mod::lemma_mod_multiples_basic(i as int, size as int);
                    crate::bits::lemma_mod_trans((i * size) as int, size as int, 8);
                }
            }
            let slot = base + i * size;
            proof {
                assert(!before.contains(slot)) by {
                    if before.contains(slot) {
                        let j = choose|j: int| 0 <= j < before.len() && before[j] == slot;
                        assert((i + 1 + j) * size > i * size) by (nonlinear_arith)
                            requires
                                j >= 0,
                                size > 0,
                        ;
                        assert((i + 1 + j) * size <= count * size) by (nonlinear_arith)
                            requires
                                i + 1 + j <= count,
                                size > 0,
                        ;
                        assert(before[j] == base + (i + 1 + j) * size);
                    }
                }
            }
            self.free_pieces.push(mem, slot);
            proof {
                m.lemma_store(slot, link_at(before, 0));
                assert(self.free_pieces@ =~= Seq::new(
                    (count - i) as nat,
                    |j: int| (base + (i + j) * size) as usize,
                ));
                assert(mem@.agrees_outside(m0, base as int, base + 4096)) by {
                    assert forall|a: usize| #[trigger]
                        m0.holds(a) && !(base <= a < base + 4096) implies mem@.word(a) == m0.word(
                        a,
                    ) by {
                        assert(m.holds(a));
                    }
                }
            }
        }
        proof {
            assert(self.free_pieces@ =~= slots(base, rank as nat));
            assert forall|k: int| 0 <= k < self.free_pieces@.len() implies self.is_slot(
                #[trigger] self.free_pieces@[k],
            ) by {
                lemma_slot(base, rank as nat, k);
            }
        }
    }

    /// Takes the first free slot, if there is one, and counts it as used.
    pub fn take_piece(&mut self, mem: &Arena) -> (piece: Option<usize>)
        requires
            mem@.wf(),
            old(self).wf(mem@),
        ensures
            final(self).wf(mem@),
            final(self).phy_addr == old(self).phy_addr,
            final(self).rank == old(self).rank,
            final(self).prev == old(self).prev,
            final(self).next == old(self).next,
            match piece {
                None => {
                    &&& old(self).free_pieces@.len() == 0
                    &&& final(self).free_pieces@ == old(self).free_pieces@
                    &&& final(self).uses == old(self).uses
                    &&& final(self).live() == old(self).live()
                },
                Some(p) => {
                    &&& old(self).free_pieces@.len() > 0
                    &&& p == old(self).free_pieces@[0]
                    &&& final(self).free_pieces@ == old(self).free_pieces@.drop_first()
                    &&& final(self).uses == old(self).uses + 1
                    &&& final(self).live() == old(self).live().insert(p)
                    &&& !old(self).live().contains(p)
                },
            },
    {
        let ghost before = self.free_pieces@;
        let ghost live = self.live@;
        let piece = self.free_pieces.pop(mem);
        match piece {
            None => None,
            Some(p) => {
                proof {
                    lemma_pow2_rank((12 - self.rank) as nat);
                    assert(before.contains(before[0]));
                    assert(before.no_duplicates());
                    assert forall|a: usize| #[trigger] live.insert(p).contains(a) implies self.is_slot(
                        a,
                    ) && !self.free_pieces@.contains(a) by {
                        if self.free_pieces@.contains(a) {
                            let k = choose|k: int|
                                0 <= k < before.drop_first().len() && before.drop_first()[k] == a;
                            assert(before[k + 1] == a);
                            assert(before.contains(a));
                        }
                    }
                    assert forall|i: int| 0 <= i < self.free_pieces@.len() implies self.is_slot(
                        #[trigger] self.free_pieces@[i],
                    ) by {
                        assert(self.free_pieces@[i] == before[i + 1]);
                    }
                }
                self.uses = self.uses + 1;
                self.live = Ghost(live.insert(p));
                Some(p)
            },
        }
    }

    /// Puts the slot at `ptr` back on the free list.
    pub fn release_piece(&mut self, mem: &mut Arena, ptr: usize)
        requires
            old(mem)@.wf(),
            old(self).wf(old(mem)@),
            old(self).live().contains(ptr),
        ensures
            final(mem)@ == old(mem)@.store(ptr, link_at(old(self).free_pieces@, 0)),
            final(mem)@.wf(),
            final(self).wf(final(mem)@),
            final(self).phy_addr == old(self).phy_addr,
            final(self).rank == old(self).rank,
            final(self).prev == old(self).prev,
            final(self).next == old(self).next,
            final(self).free_pieces@ == seq![ptr] + old(self).free_pieces@,
            final(self).uses == old(self).uses - 1,
            final(self).live() == old(self).live().remove(ptr),
    {
        let ghost before = self.free_pieces@;
        let ghost live = self.live@;
        proof {
            assert(live.len() > 0) by {
                if live.len() == 0 {
                    live.lemma_len0_is_empty();
                }
            }
            assert(mem@.holds(ptr)) by {
                lemma_pow2_rank(self.rank as nat);
                lemma_pow2_mod(self.rank as nat, 3);
                vstd::arithmetic::power2::lemma2_to64();
                crate::bits::lemma_mod_trans(
                    ptr - self.phy_addr,
                    pow2(self.rank as nat) as int,
                    8,
                );
            }
        }
        self.uses = self.uses - 1;
        self.free_pieces.push(mem, ptr);
        self.live = Ghost(live.remove(ptr));
        proof {
            let after = self.free_pieces@;
            assert forall|i: int| 0 <= i < after.len() implies self.is_slot(#[trigger] after[i]) by {
                if i > 0 {
                    assert(after[i] == before[i - 1]);
                }
            }
            assert forall|a: usize| #[trigger] live.remove(ptr).contains(a) implies self.is_slot(a)
                && !after.contains(a) by {
                if after.contains(a) {
                    let k = choose|k: int| 0 <= k < after.len() && after[k] == a;
                    assert(k > 0);
                    assert(before[k - 1] == a);
                    assert(before.contains(a));
                }
            }
        }
    }
}

/// The `k`-th slot of a page lies in the page, at a multiple of the slot
/// size.
pub proof fn lemma_slot(base: usize, rank: nat, k: int)
    requires
        3 <= rank < 12,
        0 <= k < pow2((12 - rank) as nat),
        base + 4096 <= usize::MAX,
    ensures
        base <= slots(base, rank)[k] < base + 4096,
        slots(base, rank)[k] == base + k * pow2(rank),
        (slots(base, rank)[k] - base) % (pow2(rank) as int) == 0,
        k * pow2(rank) + pow2(rank) <= 4096,
{
    lemma_pow2_mod(12, rank);
    vstd::arithmetic::power2::lemma2_to64();
    lemma_pow2_pos(rank);
    let size = pow2(rank) as int;
    let count = pow2((12 - rank) as nat) as int;
    assert(k * size + size <= count * size) by (nonlinear_arith)
        requires
            k + 1 <= count,
            size > 0,
    ;
    assert(k * size >= 0) by (nonlinear_arith)
        requires
            k >= 0,
            size > 0,
    ;
    assert(size * count == count * size) by (nonlinear_arith);
    vstd::arithmetic::div_mod::lemma_mod_multiples_basic(k, size);
}

/// The records of the pages of a heap, in the order of their addresses.
pub struct SlabTable {
    pub base: usize,
    pub nodes: Vec<SlabNode>,
}

impl SlabTable {
    /// The table covers whole pages from a page-aligned base, and each
    /// record knows the address of its page.
    pub open spec fn wf(&self) -> bool {
        &&& self.base % 4096 == 0
        &&& self.base + self.nodes@.len() * 4096 <= usize::MAX
        &&& forall|i: int|
            0 <= i < self.nodes@.len() ==> (#[trigger] self.nodes@[i]).phy_addr == self.base + i
                * 4096
    }

    /// First address past the pages of the table.
    pub open spec fn end(&self) -> int {
        self.base + self.nodes@.len() * 4096
    }

    /// A table of `count` unused records for the pages from `base` on.
    pub fn new(base: usize, count: usize) -> (table: SlabTable)
        requires
            base % 4096 == 0,
            base + count * 4096 <= usize::MAX,
        ensures
            table.wf(),
            table.base == base,
            table.nodes@.len() == count,
            forall|i: int|
                0 <= i < count ==> {
                    let node = #[trigger] table.nodes@[i];
                    &&& node.rank == 0
                    &&& node.uses == 0
                    &&& node.free_pieces@.len() == 0
                    &&& node.prev.is_none()
                    &&& node.next.is_none()
                },
    {
        let mut nodes: Vec<SlabNode> = Vec::new();
        let mut i: usize = 0;
        while i < count
            invariant
                i <= count,
                base + count * 4096 <= usize::MAX,
                nodes@.len() == i,
                forall|j: int|
                    0 <= j < i ==> {
                        let node = #[trigger] nodes@[j];
                        &&& node.phy_addr == base + j * 4096
                        &&& node.rank == 0
                        &&& node.uses == 0
                        &&& node.free_pieces@.len() == 0
                        &&& node.prev.is_none()
                        &&& node.next.is_none()
                    },
            decreases count - i,
        {
            let mut node = SlabNode::empty();
            node.phy_addr = base + i * PAGE_SIZE;
            nodes.push(node);
            i += 1;
        }
        SlabTable { base, nodes }
    }
}

/// The record of the page that holds the address `ptr`, or `None` where the
/// table has no such page.
pub fn map_slab(table: &SlabTable, ptr: usize) -> (slab: Option<SlabPtr>)
    requires
        table.wf(),
    ensures
        match slab {
            None => !(table.base <= ptr < table.end()),
            Some(s) => {
                &&& table.base <= ptr < table.end()
                &&& s.index == (ptr - table.base) / 4096
                &&& s.index < table.nodes@.len()
            },
        },
{
    if ptr < table.base {
        return None;
    }
    let offset = ptr - table.base;
    assert(offset >> 12 == offset / 4096) by (bit_vector);
    let idx = offset >> PAGE_SIZE_BITS;
    if idx < table.nodes.len() {
        Some(SlabPtr { index: idx })
    } else {
        None
    }
}

} // verus!
