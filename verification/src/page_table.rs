//! Sv39 page tables: a tree of three levels of frames, each of 512 entries,
//! that leads from a virtual page number to a page table entry.

use vstd::prelude::*;
use crate::address::{vpn_index, PhysAddr, PhysPageNum, VirtAddr, VirtPageNum};
use crate::config::PPN_MASK;
use crate::frame_allocator::{frame_alloc, FramePool, FrameTracker, StackFrameAllocator};
use crate::phys_memory::{FrameModel, PhysMemory};

verus! {

/// The flag bits of a page table entry.
#[derive(Copy, Clone, PartialEq, Eq, Structural, Debug)]
pub struct PTEFlags {
    pub bits: u8,
}

impl PTEFlags {
    /// Valid.
    pub const V: u8 = 0x01;

    /// Readable.
    pub const R: u8 = 0x02;

    /// Writable.
    pub const W: u8 = 0x04;

    /// Executable.
    pub const X: u8 = 0x08;

    /// Accessible to user mode.
    pub const U: u8 = 0x10;

    /// Global.
    pub const G: u8 = 0x20;

    /// Accessed since the bit was last cleared.
    pub const A: u8 = 0x40;

    /// Written since the bit was last cleared.
    pub const D: u8 = 0x80;

    /// The flags whose bits are set in `bits`.
    pub fn of(bits: u8) -> (flags: PTEFlags)
        ensures
            flags.bits == bits,
    {
        PTEFlags { bits }
    }

    /// No flag.
    pub fn empty() -> (flags: PTEFlags)
        ensures
            flags.bits == 0,
    {
        PTEFlags { bits: 0 }
    }

    /// The flags as a byte.
    pub fn bits(&self) -> (bits: u8)
        ensures
            bits == self.bits,
    {
        self.bits
    }

    /// The flags of a byte: each bit of a byte is a flag.
    pub fn from_bits(bits: u8) -> (flags: Option<PTEFlags>)
        ensures
            flags == Some(PTEFlags { bits }),
    {
        Some(PTEFlags { bits })
    }

    /// The flags of both.
    pub fn union(self, other: PTEFlags) -> (flags: PTEFlags)
        ensures
            flags.bits == self.bits | other.bits,
    {
        PTEFlags { bits: self.bits | other.bits }
    }

    /// The flags that both have.
    pub fn intersection(self, other: PTEFlags) -> (flags: PTEFlags)
        ensures
            flags.bits == self.bits & other.bits,
    {
        PTEFlags { bits: self.bits & other.bits }
    }

    /// Whether every flag of `other` is set.
    pub fn contains(&self, other: PTEFlags) -> (b: bool)
        ensures
            b == (self.bits & other.bits == other.bits),
    {
        self.bits & other.bits == other.bits
    }

    /// Whether no flag is set.
    pub fn is_empty(&self) -> (b: bool)
        ensures
            b == (self.bits == 0),
    {
        self.bits == 0
    }
}

/// The entry `bits` is valid.
pub open spec fn pte_valid(bits: u64) -> bool {
    bits & 1 == 1
}

/// The physical page number of the entry `bits`.
pub open spec fn pte_ppn(bits: u64) -> u64 {
    (bits >> 10) & 0x0fff_ffff_ffff
}

/// The flag bits of the entry `bits`.
pub open spec fn pte_flags(bits: u64) -> u8 {
    (bits & 0xff) as u8
}

/// The entry made of the page number `ppn` and the flags `flags`.
pub open spec fn pte_bits(ppn: u64, flags: u8) -> u64 {
    (ppn << 10) | (flags as u64)
}

/// An entry gives back the page number and the flags that it was made of.
pub proof fn lemma_pte_bits(ppn: u64, flags: u8)
    requires
        ppn <= 0x0fff_ffff_ffff,
    ensures
        pte_ppn(pte_bits(ppn, flags)) == ppn,
        pte_flags(pte_bits(ppn, flags)) == flags,
        pte_valid(pte_bits(ppn, flags)) == (flags & 1 == 1),
        !pte_valid(0),
        pte_flags(0) == 0,
        pte_ppn(0) == 0,
{
    assert(ppn <= 0x0fff_ffff_ffff ==> (((ppn << 10) | (flags as u64)) >> 10) & 0x0fff_ffff_ffff
        == ppn) by (bit_vector);
    assert((((ppn << 10) | (flags as u64)) & 0xff) as u8 == flags) by (bit_vector);
    assert((((ppn << 10) | (flags as u64)) & 1 == 1) == (flags & 1 == 1)) by (bit_vector);
    assert(0u64 & 1 != 1) by (bit_vector);
    assert((0u64 & 0xff) as u8 == 0u8) by (bit_vector);
    assert((0u64 >> 10) & 0x0fff_ffff_ffff == 0) by (bit_vector);
}

/// An entry of a page table.
#[derive(Copy, Clone, PartialEq, Eq, Structural, Debug)]
pub struct PageTableEntry {
    pub bits: u64,
}

// |64    54|53  28|27  19|18  10|9 8|7|6|5|4|3|2|1|0|
// |Reserved|PPN[2]|PPN[1]|PPN[0]|RSW|D|A|G|U|X|W|R|V|
impl PageTableEntry {
    /// The entry that leads to the page `ppn` with the flags `flags`.
    pub fn new(ppn: PhysPageNum, flags: PTEFlags) -> (pte: PageTableEntry)
        ensures
            pte.bits == pte_bits(ppn.0, flags.bits),
    {
        PageTableEntry { bits: ppn.0 << 10 | flags.bits as u64 }
    }

    /// The entry that leads nowhere.
    pub fn empty() -> (pte: PageTableEntry)
        ensures
            pte.bits == 0,
    {
        PageTableEntry { bits: 0 }
    }

    /// The page that the entry leads to.
    pub fn ppn(&self) -> (ppn: PhysPageNum)
        ensures
            ppn.0 == pte_ppn(self.bits),
            ppn.0 <= 0x0fff_ffff_ffff,
    {
        let bits = self.bits;
        assert((bits >> 10) & 0x0fff_ffff_ffff <= 0x0fff_ffff_ffff) by (bit_vector);
        PhysPageNum((self.bits >> 10) & PPN_MASK)
    }

    /// The flags of the entry.
    pub fn flags(&self) -> (flags: PTEFlags)
        ensures
            flags.bits == pte_flags(self.bits),
    {
        PTEFlags { bits: (self.bits & 0xff) as u8 }
    }

    /// Whether the entry is valid.
    pub fn is_valid(&self) -> (b: bool)
        ensures
            b == pte_valid(self.bits),
            b == (pte_flags(self.bits) & 0x01 == 0x01),
    {
        let bits = self.bits;
        assert((bits & 1 == 1) == (((bits & 0xff) as u8) & 0x01 == 0x01)) by (bit_vector);
        assert((bits & 1 == 1) == (bits & 1 != 0)) by (bit_vector);
        self.bits & 1 != 0
    }

    /// Whether the page can be read.
    pub fn readable(&self) -> (b: bool)
        ensures
            b == (pte_flags(self.bits) & 0x02 == 0x02),
    {
        let bits = self.bits;
        assert((((bits & 0xff) as u8) & 0x02 == 0x02) == (bits & 2 != 0)) by (bit_vector);
        self.bits & 2 != 0
    }

    /// Whether the page can be written.
    pub fn writable(&self) -> (b: bool)
        ensures
            b == (pte_flags(self.bits) & 0x04 == 0x04),
    {
        let bits = self.bits;
        assert((((bits & 0xff) as u8) & 0x04 == 0x04) == (bits & 4 != 0)) by (bit_vector);
        self.bits & 4 != 0
    }

    /// Whether the page can be executed.
    pub fn executable(&self) -> (b: bool)
        ensures
            b == (pte_flags(self.bits) & 0x08 == 0x08),
    {
        let bits = self.bits;
        assert((((bits & 0xff) as u8) & 0x08 == 0x08) == (bits & 8 != 0)) by (bit_vector);
        self.bits & 8 != 0
    }
}

/// The frame of the second level that the walk for `vpn` goes through, where
/// the entry of the root is valid and leads to a frame of the memory.
pub open spec fn node1(root: u64, m: FrameModel, vpn: u64) -> Option<u64> {
    let e0 = m.word(root, vpn_index(vpn, 0));
    if m.holds(root) && pte_valid(e0) && m.holds(pte_ppn(e0)) {
        Some(pte_ppn(e0))
    } else {
        None
    }
}

/// The frame of the third level that the walk for `vpn` ends in, where the
/// entries of the two levels above are valid and lead to frames of the
/// memory.
pub open spec fn node2(root: u64, m: FrameModel, vpn: u64) -> Option<u64> {
    match node1(root, m, vpn) {
        None => None,
        Some(n1) => {
            let e1 = m.word(n1, vpn_index(vpn, 1));
            if pte_valid(e1) && m.holds(pte_ppn(e1)) {
                Some(pte_ppn(e1))
            } else {
                None
            }
        },
    }
}

/// The entry that the walk for `vpn` ends at, valid or not, where the
/// walk gets that far.
pub open spec fn walk(root: u64, m: FrameModel, vpn: u64) -> Option<u64> {
    match node2(root, m, vpn) {
        None => None,
        Some(n2) => Some(m.word(n2, vpn_index(vpn, 2))),
    }
}

/// The valid entry that `vpn` is mapped by, if it is mapped.
pub open spec fn mapping(root: u64, m: FrameModel, vpn: u64) -> Option<u64> {
    match walk(root, m, vpn) {
        None => None,
        Some(e) => if pte_valid(e) {
            Some(e)
        } else {
            None
        },
    }
}

/// The number of frames that the walk for `vpn` lacks to reach the third
/// level.
pub open spec fn missing_levels(root: u64, m: FrameModel, vpn: u64) -> int {
    if node1(root, m, vpn).is_none() {
        2
    } else if node2(root, m, vpn).is_none() {
        1
    } else {
        0
    }
}

/// Two page numbers have the same index at every level.
pub open spec fn same_indexes(v: u64, w: u64) -> bool {
    &&& vpn_index(v, 0) == vpn_index(w, 0)
    &&& vpn_index(v, 1) == vpn_index(w, 1)
    &&& vpn_index(v, 2) == vpn_index(w, 2)
}

/// The frames `l1` and `l2` form, under `root`, a tree in the memory `m`:
/// each valid entry of the root leads to a frame of `l1`, each valid entry
/// of a frame of `l1` to a frame of `l2`, and no two entries lead to the
/// same frame.
pub open spec fn tree(root: u64, l1: Set<u64>, l2: Set<u64>, m: FrameModel) -> bool {
    &&& m.holds(root)
    &&& !l1.contains(root)
    &&& !l2.contains(root)
    &&& forall|n: u64| #[trigger] l1.contains(n) ==> m.holds(n) && !l2.contains(n)
    &&& forall|n: u64| #[trigger] l2.contains(n) ==> m.holds(n)
    &&& forall|i: int|
        0 <= i < 512 && pte_valid(#[trigger] m.word(root, i)) ==> l1.contains(
            pte_ppn(m.word(root, i)),
        )
    &&& forall|n: u64, i: int|
        l1.contains(n) && 0 <= i < 512 && pte_valid(#[trigger] m.word(n, i)) ==> l2.contains(
            pte_ppn(m.word(n, i)),
        )
    &&& forall|i: int, j: int|
        0 <= i < 512 && 0 <= j < 512 && i != j && pte_valid(#[trigger] m.word(root, i))
            && pte_valid(#[trigger] m.word(root, j)) ==> pte_ppn(m.word(root, i)) != pte_ppn(
            m.word(root, j),
        )
    &&& forall|n: u64, i: int, k: u64, j: int|
        l1.contains(n) && l1.contains(k) && 0 <= i < 512 && 0 <= j < 512 && !(n == k && i == j)
            && pte_valid(#[trigger] m.word(n, i)) && pte_valid(#[trigger] m.word(k, j))
            ==> pte_ppn(m.word(n, i)) != pte_ppn(m.word(k, j))
}

/// The indexes of a page number are below 512.
pub proof fn lemma_index_range(vpn: u64)
    ensures
        0 <= vpn_index(vpn, 0) < 512,
        0 <= vpn_index(vpn, 1) < 512,
        0 <= vpn_index(vpn, 2) < 512,
{
}

/// A memory that agrees on the frames of a tree holds the same tree, with
/// the same walks.
pub proof fn lemma_tree_frame(
    root: u64,
    l1: Set<u64>,
    l2: Set<u64>,
    m1: FrameModel,
    m2: FrameModel,
    changed: Set<u64>,
)
    requires
        tree(root, l1, l2, m1),
        m1.wf(),
        m2.same_but(m1, changed),
        !changed.contains(root),
        forall|n: u64| changed.contains(n) ==> !l1.contains(n) && !l2.contains(n),
    ensures
        tree(root, l1, l2, m2),
        forall|v: u64| #[trigger] walk(root, m2, v) == walk(root, m1, v),
        forall|v: u64| #[trigger] node2(root, m2, v) == node2(root, m1, v),
        forall|v: u64| #[trigger] node1(root, m2, v) == node1(root, m1, v),
{
    assert forall|p: u64| #[trigger] m2.holds(p) == m1.holds(p) by {}
    assert forall|i: int| 0 <= i < 512 implies #[trigger] m2.word(root, i) == m1.word(root, i) by {}
    assert forall|n: u64, i: int| l1.contains(n) && 0 <= i < 512 implies #[trigger] m2.word(n, i)
        == m1.word(n, i) by {}
    assert forall|n: u64, i: int| l2.contains(n) && 0 <= i < 512 implies #[trigger] m2.word(n, i)
        == m1.word(n, i) by {}
    assert forall|v: u64| #[trigger] walk(root, m2, v) == walk(root, m1, v) && node2(root, m2, v)
        == node2(root, m1, v) && node1(root, m2, v) == node1(root, m1, v) by {
        lemma_index_range(v);
        let i0 = vpn_index(v, 0);
        let e0 = m1.word(root, i0);
        assert(m2.word(root, i0) == e0);
        if pte_valid(e0) {
            let n1 = pte_ppn(e0);
            assert(l1.contains(n1));
            let e1 = m1.word(n1, vpn_index(v, 1));
            assert(m2.word(n1, vpn_index(v, 1)) == e1);
            if pte_valid(e1) {
                let n2 = pte_ppn(e1);
                assert(l2.contains(n2));
                assert(m2.word(n2, vpn_index(v, 2)) == m1.word(n2, vpn_index(v, 2)));
            }
        }
    }
}

} // verus!

verus! {

/// A fresh, zeroed frame that a so far invalid entry of the root is made to
/// lead to joins the tree as a frame of the second level; no mapping
/// changes.
pub proof fn lemma_add_l1(
    root: u64,
    l1: Set<u64>,
    l2: Set<u64>,
    m0: FrameModel,
    m1: FrameModel,
    m2: FrameModel,
    f: u64,
    i0: int,
    bits: u64,
)
    requires
        tree(root, l1, l2, m0),
        m0.wf(),
        m0.holds(f),
        f != root,
        !l1.contains(f),
        !l2.contains(f),
        m1.wf(),
        m1.same_but(m0, set![f]),
        forall|i: int| 0 <= i < 512 ==> m1.word(f, i) == 0,
        0 <= i0 < 512,
        !pte_valid(m0.word(root, i0)),
        m2 == m1.store(root, i0, bits),
        pte_valid(bits),
        pte_ppn(bits) == f,
    ensures
        m2.wf(),
        tree(root, l1.insert(f), l2, m2),
        m2.same_but(m0, set![root, f]),
        forall|v: u64| #[trigger] mapping(root, m2, v) == mapping(root, m0, v),
        forall|v: u64|
            vpn_index(v, 0) != i0 ==> #[trigger] node1(root, m2, v) == node1(root, m0, v) && node2(
                root,
                m2,
                v,
            ) == node2(root, m0, v) && walk(root, m2, v) == walk(root, m0, v),
        forall|v: u64|
            vpn_index(v, 0) == i0 ==> #[trigger] node1(root, m2, v) == Some(f) && node2(
                root,
                m2,
                v,
            ).is_none(),
{
    m1.lemma_store(root, i0, bits);
    lemma_pte_bits(0, 0);
    let l1b = l1.insert(f);
    assert forall|p: u64| #[trigger] m2.holds(p) == m0.holds(p) by {}
    assert forall|i: int| 0 <= i < 512 && i != i0 implies #[trigger] m2.word(root, i) == m0.word(
        root,
        i,
    ) by {
        assert(m1.word(root, i) == m0.word(root, i));
    }
    assert forall|n: u64, i: int| n != root && n != f && m0.holds(n) && 0 <= i < 512 implies #[trigger] m2.word(
        n,
        i,
    ) == m0.word(n, i) by {
        assert(m1.word(n, i) == m0.word(n, i));
    }
    assert forall|i: int| 0 <= i < 512 implies #[trigger] m2.word(f, i) == 0 by {
        assert(m1.word(f, i) == 0);
    }
    assert forall|i: int| 0 <= i < 512 && pte_valid(#[trigger] m2.word(root, i)) implies l1b.contains(
        pte_ppn(m2.word(root, i)),
    ) by {
        if i != i0 {
            assert(m2.word(root, i) == m0.word(root, i));
        }
    }
    assert forall|n: u64, i: int|
        l1b.contains(n) && 0 <= i < 512 && pte_valid(#[trigger] m2.word(n, i)) implies l2.contains(
        pte_ppn(m2.word(n, i)),
    ) by {
        if n != f {
            assert(m2.word(n, i) == m0.word(n, i));
        }
    }
    assert forall|i: int, j: int|
        0 <= i < 512 && 0 <= j < 512 && i != j && pte_valid(#[trigger] m2.word(root, i))
            && pte_valid(#[trigger] m2.word(root, j)) implies pte_ppn(m2.word(root, i)) != pte_ppn(
        m2.word(root, j),
    ) by {
        if i != i0 {
            assert(m2.word(root, i) == m0.word(root, i));
            assert(l1.contains(pte_ppn(m0.word(root, i))));
        }
        if j != i0 {
            assert(m2.word(root, j) == m0.word(root, j));
            assert(l1.contains(pte_ppn(m0.word(root, j))));
        }
    }
    assert forall|n: u64, i: int, k: u64, j: int|
        l1b.contains(n) && l1b.contains(k) && 0 <= i < 512 && 0 <= j < 512 && !(n == k && i == j)
            && pte_valid(#[trigger] m2.word(n, i)) && pte_valid(
            #[trigger] m2.word(k, j),
        ) implies pte_ppn(m2.word(n, i)) != pte_ppn(m2.word(k, j)) by {
        if n != f {
            assert(m2.word(n, i) == m0.word(n, i));
        }
        if k != f {
            assert(m2.word(k, j) == m0.word(k, j));
        }
    }
    assert(tree(root, l1b, l2, m2));
    assert forall|v: u64|
        (vpn_index(v, 0) != i0 ==> #[trigger] node1(root, m2, v) == node1(root, m0, v) && node2(
            root,
            m2,
            v,
        ) == node2(root, m0, v) && walk(root, m2, v) == walk(root, m0, v)) && (vpn_index(v, 0) == i0
            ==> node1(root, m2, v) == Some(f) && node2(root, m2, v).is_none()) by {
        lemma_index_range(v);
        let j0 = vpn_index(v, 0);
        if j0 != i0 {
            let e0 = m0.word(root, j0);
            assert(m2.word(root, j0) == e0);
            if pte_valid(e0) {
                let n1 = pte_ppn(e0);
                assert(l1.contains(n1));
                let e1 = m0.word(n1, vpn_index(v, 1));
                assert(m2.word(n1, vpn_index(v, 1)) == e1);
                if pte_valid(e1) {
                    let n2 = pte_ppn(e1);
                    assert(l2.contains(n2));
                    assert(m2.word(n2, vpn_index(v, 2)) == m0.word(n2, vpn_index(v, 2)));
                }
            }
        } else {
            assert(m2.word(f, vpn_index(v, 1)) == 0);
        }
    }
    assert forall|v: u64| #[trigger] mapping(root, m2, v) == mapping(root, m0, v) by {
        if vpn_index(v, 0) == i0 {
            assert(node2(root, m2, v).is_none());
            assert(node1(root, m0, v).is_none());
        } else {
            assert(node1(root, m2, v) == node1(root, m0, v));
        }
    }
    assert(m2.same_but(m0, set![root, f])) by {
        assert forall|p: u64, i: int|
            m0.holds(p) && !set![root, f].contains(p) && 0 <= i < 512 implies #[trigger] m2.word(
            p,
            i,
        ) == m0.word(p, i) by {}
    }
}

/// A fresh, zeroed frame that a so far invalid entry of a frame of the
/// second level is made to lead to joins the tree as a frame of the third
/// level; no mapping changes.
pub proof fn lemma_add_l2(
    root: u64,
    l1: Set<u64>,
    l2: Set<u64>,
    m0: FrameModel,
    m1: FrameModel,
    m2: FrameModel,
    n1: u64,
    f: u64,
    i1: int,
    bits: u64,
)
    requires
        tree(root, l1, l2, m0),
        m0.wf(),
        m0.holds(f),
        f != root,
        !l1.contains(f),
        !l2.contains(f),
        l1.contains(n1),
        m1.wf(),
        m1.same_but(m0, set![f]),
        forall|i: int| 0 <= i < 512 ==> m1.word(f, i) == 0,
        0 <= i1 < 512,
        !pte_valid(m0.word(n1, i1)),
        m2 == m1.store(n1, i1, bits),
        pte_valid(bits),
        pte_ppn(bits) == f,
    ensures
        m2.wf(),
        tree(root, l1, l2.insert(f), m2),
        m2.same_but(m0, set![n1, f]),
        forall|v: u64| #[trigger] mapping(root, m2, v) == mapping(root, m0, v),
        forall|v: u64| #[trigger] node1(root, m2, v) == node1(root, m0, v),
        forall|v: u64|
            !(node1(root, m0, v) == Some(n1) && vpn_index(v, 1) == i1) ==> #[trigger] node2(
                root,
                m2,
                v,
            ) == node2(root, m0, v) && walk(root, m2, v) == walk(root, m0, v),
        forall|v: u64|
            node1(root, m0, v) == Some(n1) && vpn_index(v, 1) == i1 ==> #[trigger] node2(
                root,
                m2,
                v,
            ) == Some(f) && walk(root, m2, v) == Some(0u64),
{
    m1.lemma_store(n1, i1, bits);
    lemma_pte_bits(0, 0);
    let l2b = l2.insert(f);
    assert forall|p: u64| #[trigger] m2.holds(p) == m0.holds(p) by {}
    assert forall|n: u64, i: int|
        n != f && m0.holds(n) && 0 <= i < 512 && !(n == n1 && i == i1) implies #[trigger] m2.word(
        n,
        i,
    ) == m0.word(n, i) by {
        assert(m1.word(n, i) == m0.word(n, i));
    }
    assert forall|i: int| 0 <= i < 512 implies #[trigger] m2.word(f, i) == 0 by {
        assert(m1.word(f, i) == 0);
    }
    assert forall|i: int| 0 <= i < 512 && pte_valid(#[trigger] m2.word(root, i)) implies l1.contains(
        pte_ppn(m2.word(root, i)),
    ) by {
        assert(m2.word(root, i) == m0.word(root, i));
    }
    assert forall|n: u64, i: int|
        l1.contains(n) && 0 <= i < 512 && pte_valid(#[trigger] m2.word(n, i)) implies l2b.contains(
        pte_ppn(m2.word(n, i)),
    ) by {
        if !(n == n1 && i == i1) {
            assert(m2.word(n, i) == m0.word(n, i));
        }
    }
    assert forall|i: int, j: int|
        0 <= i < 512 && 0 <= j < 512 && i != j && pte_valid(#[trigger] m2.word(root, i))
            && pte_valid(#[trigger] m2.word(root, j)) implies pte_ppn(m2.word(root, i)) != pte_ppn(
        m2.word(root, j),
    ) by {
        assert(m2.word(root, i) == m0.word(root, i));
        assert(m2.word(root, j) == m0.word(root, j));
    }
    assert forall|n: u64, i: int, k: u64, j: int|
        l1.contains(n) && l1.contains(k) && 0 <= i < 512 && 0 <= j < 512 && !(n == k && i == j)
            && pte_valid(#[trigger] m2.word(n, i)) && pte_valid(
            #[trigger] m2.word(k, j),
        ) implies pte_ppn(m2.word(n, i)) != pte_ppn(m2.word(k, j)) by {
        if !(n == n1 && i == i1) {
            assert(m2.word(n, i) == m0.word(n, i));
            assert(l2.contains(pte_ppn(m0.word(n, i))));
        }
        if !(k == n1 && j == i1) {
            assert(m2.word(k, j) == m0.word(k, j));
            assert(l2.contains(pte_ppn(m0.word(k, j))));
        }
    }
    assert(tree(root, l1, l2b, m2));
    assert forall|v: u64|
        #[trigger] node1(root, m2, v) == node1(root, m0, v) && (!(node1(root, m0, v) == Some(n1)
            && vpn_index(v, 1) == i1) ==> node2(root, m2, v) == node2(root, m0, v) && walk(
            root,
            m2,
            v,
        ) == walk(root, m0, v)) && (node1(root, m0, v) == Some(n1) && vpn_index(v, 1) == i1
            ==> node2(root, m2, v) == Some(f) && walk(root, m2, v) == Some(0u64)) by {
        lemma_index_range(v);
        let e0 = m0.word(root, vpn_index(v, 0));
        assert(m2.word(root, vpn_index(v, 0)) == e0);
        if pte_valid(e0) {
            let k1 = pte_ppn(e0);
            assert(l1.contains(k1));
            if !(k1 == n1 && vpn_index(v, 1) == i1) {
                let e1 = m0.word(k1, vpn_index(v, 1));
                assert(m2.word(k1, vpn_index(v, 1)) == e1);
                if pte_valid(e1) {
                    let n2 = pte_ppn(e1);
                    assert(l2.contains(n2));
                    assert(m2.word(n2, vpn_index(v, 2)) == m0.word(n2, vpn_index(v, 2)));
                }
            } else {
                assert(m2.word(f, vpn_index(v, 2)) == 0);
            }
        }
    }
    assert forall|v: u64| #[trigger] mapping(root, m2, v) == mapping(root, m0, v) by {
        assert(node1(root, m2, v) == node1(root, m0, v));
        if node1(root, m0, v) == Some(n1) && vpn_index(v, 1) == i1 {
            assert(walk(root, m2, v) == Some(0u64));
            assert(node2(root, m0, v).is_none());
        }
    }
    assert(m2.same_but(m0, set![n1, f])) by {
        assert forall|p: u64, i: int|
            m0.holds(p) && !set![n1, f].contains(p) && 0 <= i < 512 implies #[trigger] m2.word(p, i)
            == m0.word(p, i) by {}
    }
}

/// A store to the entry that the walk for `vpn` ends at changes the walk for
/// that page, and for no page with other indexes.
pub proof fn lemma_set_leaf(
    root: u64,
    l1: Set<u64>,
    l2: Set<u64>,
    m0: FrameModel,
    m2: FrameModel,
    vpn: u64,
    bits: u64,
)
    requires
        tree(root, l1, l2, m0),
        m0.wf(),
        node2(root, m0, vpn).is_some(),
        m2 == m0.store(node2(root, m0, vpn).unwrap(), vpn_index(vpn, 2), bits),
    ensures
        m2.wf(),
        tree(root, l1, l2, m2),
        m2.same_but(m0, set![node2(root, m0, vpn).unwrap()]),
        walk(root, m2, vpn) == Some(bits),
        forall|v: u64| #[trigger] node1(root, m2, v) == node1(root, m0, v),
        forall|v: u64| #[trigger] node2(root, m2, v) == node2(root, m0, v),
        forall|v: u64| !same_indexes(v, vpn) ==> #[trigger] walk(root, m2, v) == walk(root, m0, v),
        forall|v: u64| same_indexes(v, vpn) ==> #[trigger] walk(root, m2, v) == Some(bits),
{
    lemma_index_range(vpn);
    let n2 = node2(root, m0, vpn).unwrap();
    let n1 = node1(root, m0, vpn).unwrap();
    let i0 = vpn_index(vpn, 0);
    let i1 = vpn_index(vpn, 1);
    let i2 = vpn_index(vpn, 2);
    assert(l1.contains(n1));
    assert(l2.contains(n2));
    m0.lemma_store(n2, i2, bits);
    assert forall|p: u64| #[trigger] m2.holds(p) == m0.holds(p) by {}
    assert forall|n: u64, i: int| n != n2 && m0.holds(n) && 0 <= i < 512 implies #[trigger] m2.word(
        n,
        i,
    ) == m0.word(n, i) by {}
    assert forall|i: int| 0 <= i < 512 implies #[trigger] m2.word(root, i) == m0.word(root, i) by {}
    assert forall|n: u64, i: int| l1.contains(n) && 0 <= i < 512 implies #[trigger] m2.word(n, i)
        == m0.word(n, i) by {}
    assert(tree(root, l1, l2, m2));
    assert forall|v: u64|
        #[trigger] node1(root, m2, v) == node1(root, m0, v) && node2(root, m2, v) == node2(
            root,
            m0,
            v,
        ) && (!same_indexes(v, vpn) ==> walk(root, m2, v) == walk(root, m0, v)) && (same_indexes(
            v,
            vpn,
        ) ==> walk(root, m2, v) == Some(bits)) by {
        lemma_index_range(v);
        let j0 = vpn_index(v, 0);
        let j1 = vpn_index(v, 1);
        let e0 = m0.word(root, j0);
        assert(m2.word(root, j0) == e0);
        if pte_valid(e0) {
            let k1 = pte_ppn(e0);
            assert(l1.contains(k1));
            let e1 = m0.word(k1, j1);
            assert(m2.word(k1, j1) == e1);
            if pte_valid(e1) {
                let k2 = pte_ppn(e1);
                assert(l2.contains(k2));
                if k2 == n2 && vpn_index(v, 2) == i2 {
                    // the same frame of the third level is reached by the same entries
                    assert(pte_valid(m0.word(n1, i1)));
                    assert(pte_valid(m0.word(root, i0)));
                    if !(k1 == n1 && j1 == i1) {
                        assert(pte_ppn(m0.word(k1, j1)) != pte_ppn(m0.word(n1, i1)));
                    }
                    if j0 != i0 {
                        assert(pte_ppn(m0.word(root, j0)) != pte_ppn(m0.word(root, i0)));
                    }
                } else {
                    assert(m2.word(k2, vpn_index(v, 2)) == m0.word(k2, vpn_index(v, 2)));
                }
            }
        }
    }
    assert(m2.same_but(m0, set![n2])) by {
        assert forall|p: u64, i: int|
            m0.holds(p) && !set![n2].contains(p) && 0 <= i < 512 implies #[trigger] m2.word(p, i)
            == m0.word(p, i) by {}
    }
}

} // verus!

verus! {

/// The pool issues frames of the memory only.
pub open spec fn pool_in_memory(pool: FramePool, m: FrameModel) -> bool {
    forall|p: u64| pool.base <= p < pool.end ==> #[trigger] m.holds(p)
}

/// A page table: the frame of its root, and the frames that it has taken
/// for its lower levels.
pub struct PageTable {
    level0_ppn: PhysPageNum,
    frames: Vec<FrameTracker>,
    l1: Ghost<Set<u64>>,
    l2: Ghost<Set<u64>>,
}

impl PageTable {
    /// The frame of the root.
    pub closed spec fn root(&self) -> u64 {
        self.level0_ppn.0
    }

    /// The frames of the second level.
    pub closed spec fn level1(&self) -> Set<u64> {
        self.l1@
    }

    /// The frames of the third level.
    pub closed spec fn level2(&self) -> Set<u64> {
        self.l2@
    }

    /// The frames that the table has taken from the pool, the root first.
    pub closed spec fn owned(&self) -> Seq<u64> {
        Seq::new(self.frames@.len(), |k: int| self.frames@[k].ppn.0)
    }

    /// The frames of the table.
    pub open spec fn nodes(&self) -> Set<u64> {
        self.level1().union(self.level2()).insert(self.root())
    }

    /// The entry that the walk for `vpn` ends at in the memory `m`.
    pub open spec fn walk(&self, m: FrameModel, vpn: VirtPageNum) -> Option<PageTableEntry> {
        match walk(self.root(), m, vpn.0) {
            None => None,
            Some(bits) => Some(PageTableEntry { bits }),
        }
    }

    /// The valid entry that `vpn` is mapped by in the memory `m`.
    pub open spec fn mapping(&self, m: FrameModel, vpn: VirtPageNum) -> Option<PageTableEntry> {
        match mapping(self.root(), m, vpn.0) {
            None => None,
            Some(bits) => Some(PageTableEntry { bits }),
        }
    }

    /// The number of frames that mapping `vpn` takes from the pool.
    pub open spec fn missing_levels(&self, m: FrameModel, vpn: VirtPageNum) -> int {
        missing_levels(self.root(), m, vpn.0)
    }

    /// The table is a tree in the memory `m` whose frames are issued by the
    /// pool and listed as owned.
    pub open spec fn wf(&self, m: FrameModel, pool: FramePool) -> bool {
        &&& m.wf()
        &&& tree(self.root(), self.level1(), self.level2(), m)
        &&& forall|n: u64| #[trigger] self.nodes().contains(n) ==> pool.is_allocated(n)
        &&& forall|n: u64| #[trigger] self.nodes().contains(n) <==> self.owned().contains(n)
        &&& self.owned().len() > 0
        &&& self.owned()[0] == self.root()
    }

    /// A memory that agrees on the frames of the table, and a pool that
    /// still has them issued, leave the table what it is.
    pub proof fn lemma_frame(
        &self,
        m1: FrameModel,
        pool1: FramePool,
        m2: FrameModel,
        pool2: FramePool,
        changed: Set<u64>,
    )
        requires
            self.wf(m1, pool1),
            m2.wf(),
            m2.same_but(m1, changed),
            forall|n: u64| changed.contains(n) ==> !self.nodes().contains(n),
            forall|n: u64| #[trigger] self.nodes().contains(n) ==> pool2.is_allocated(n),
        ensures
            self.wf(m2, pool2),
            forall|v: VirtPageNum| #[trigger] self.walk(m2, v) == self.walk(m1, v),
            forall|v: VirtPageNum| #[trigger] self.mapping(m2, v) == self.mapping(m1, v),
            forall|v: VirtPageNum| #[trigger]
                self.missing_levels(m2, v) == self.missing_levels(m1, v),
    {
        assert(self.nodes().contains(self.root()));
        assert forall|n: u64| changed.contains(n) implies !self.level1().contains(n)
            && !self.level2().contains(n) by {
            if self.level1().contains(n) || self.level2().contains(n) {
                assert(self.nodes().contains(n));
            }
        }
        lemma_tree_frame(self.root(), self.level1(), self.level2(), m1, m2, changed);
        assert forall|v: VirtPageNum| #[trigger]
            self.walk(m2, v) == self.walk(m1, v) && self.mapping(m2, v) == self.mapping(m1, v)
                && self.missing_levels(m2, v) == self.missing_levels(m1, v) by {
            assert(walk(self.root(), m2, v.0) == walk(self.root(), m1, v.0));
            assert(node1(self.root(), m2, v.0) == node1(self.root(), m1, v.0));
            assert(node2(self.root(), m2, v.0) == node2(self.root(), m1, v.0));
        }
    }

    /// A table without mappings, in a frame that it takes from the pool.
    pub fn new(pool: &mut StackFrameAllocator, mem: &mut PhysMemory) -> (table: PageTable)
        requires
            old(pool)@.wf(),
            old(mem)@.wf(),
            pool_in_memory(old(pool)@, old(mem)@),
            old(pool)@.available() > 0,
        ensures
            final(pool)@ == old(pool)@.issued(),
            final(pool)@.wf(),
            final(mem)@.wf(),
            final(mem)@.same_but(old(mem)@, set![table.root()]),
            table.root() == old(pool)@.upcoming(),
            table.nodes() == set![table.root()],
            table.wf(final(mem)@, final(pool)@),
            forall|v: VirtPageNum| table.walk(final(mem)@, v).is_none(),
            forall|v: VirtPageNum| #[trigger] table.missing_levels(final(mem)@, v) == 2,
    {
        proof {
            old(pool)@.lemma_issued();
        }
        let frame = frame_alloc(pool, mem).unwrap();
        let root = frame.ppn;
        let mut frames: Vec<FrameTracker> = Vec::new();
        frames.push(frame);
        let table = PageTable {
            level0_ppn: root,
            frames,
            l1: Ghost(Set::empty()),
            l2: Ghost(Set::empty()),
        };
        proof {
            lemma_pte_bits(0, 0);
            assert(table.owned()[0] == root.0);
            assert(table.nodes() =~= set![table.root()]);
            assert(table.level1() =~= Set::<u64>::empty());
            assert(table.level2() =~= Set::<u64>::empty());
            assert forall|i: int| 0 <= i < 512 implies !pte_valid(#[trigger] mem@.word(root.0, i)) by {
                assert(mem@.word(root.0, i) == 0);
            }
            assert(old(mem)@.holds(root.0));
            assert(mem@.holds(root.0));
            assert(tree(root.0, table.level1(), table.level2(), mem@));
            assert(pool@.is_allocated(root.0));
            assert forall|n: u64| #[trigger] table.nodes().contains(n) <==> table.owned().contains(
                n,
            ) by {
                if table.owned().contains(n) {
                    let k = choose|k: int| 0 <= k < table.owned().len() && table.owned()[k] == n;
                    assert(k == 0);
                }
            }
            assert forall|v: VirtPageNum|
                table.walk(mem@, v).is_none() && #[trigger] table.missing_levels(mem@, v) == 2 by {
                lemma_index_range(v.0);
            }
        }
        table
    }

    /// The entry that the walk for `vpn` ends at, by the frame that it
    /// stands in and its index there. Takes frames from the pool for the
    /// levels that the walk lacks.
    fn create_pte(
        &mut self,
        vpn: VirtPageNum,
        pool: &mut StackFrameAllocator,
        mem: &mut PhysMemory,
    ) -> (slot: (PhysPageNum, usize))
        requires
            old(pool)@.wf(),
            pool_in_memory(old(pool)@, old(mem)@),
            old(self).wf(old(mem)@, old(pool)@),
            old(pool)@.available() >= old(self).missing_levels(old(mem)@, vpn),
        ensures
            final(pool)@.wf(),
            pool_in_memory(final(pool)@, final(mem)@),
            final(self).wf(final(mem)@, final(pool)@),
            final(self).root() == old(self).root(),
            node2(final(self).root(), final(mem)@, vpn.0) == Some(slot.0.0),
            slot.1 == vpn_index(vpn.0, 2),
            final(mem)@.same_but(old(mem)@, final(self).nodes()),
            final(pool)@.available() == old(pool)@.available() - old(self).missing_levels(
                old(mem)@,
                vpn,
            ),
            final(pool)@.base == old(pool)@.base,
            final(pool)@.end == old(pool)@.end,
            forall|p: u64| old(pool)@.is_allocated(p) ==> final(pool)@.is_allocated(p),
            forall|p: u64|
                #[trigger] final(pool)@.is_allocated(p) ==> old(pool)@.is_allocated(p) || (final(self).nodes().contains(p) && !old(self).nodes().contains(p)),
            forall|n: u64| old(self).nodes().contains(n) ==> final(self).nodes().contains(n),
            forall|n: u64|
                #[trigger] final(self).nodes().contains(n) && !old(self).nodes().contains(n)
                    ==> !old(pool)@.is_allocated(n),
            forall|v: VirtPageNum| #[trigger]
                final(self).mapping(final(mem)@, v) == old(self).mapping(old(mem)@, v),
            old(self).walk(old(mem)@, vpn).is_some() ==> final(self).walk(final(mem)@, vpn) == old(self).walk(old(mem)@, vpn),
    {
        let ghost m0 = mem@;
        let ghost pool0 = pool@;
        let ghost t0 = *self;
        let idx = vpn.indexes();
        let root = self.level0_ppn;
        proof {
            assert(self.nodes().contains(root.0));
            lemma_index_range(vpn.0);
        }
        let e0 = PageTableEntry { bits: mem.read_word(root, idx[0]) };
        let n1 = if !e0.is_valid() {
            proof {
                pool0.lemma_issued();
            }
            let frame = frame_alloc(pool, mem).unwrap();
            let ghost m1 = mem@;
            // set valid
            let entry = PageTableEntry::new(frame.ppn, PTEFlags::of(PTEFlags::V));
            mem.write_word(root, idx[0], entry.bits);
            let next = frame.ppn;
            self.frames.push(frame);
            proof {
                let f = next.0;
                lemma_pte_bits(f, PTEFlags::V);
                assert(PTEFlags::V & 1 == 1) by (bit_vector);
                if t0.nodes().contains(f) {
                    assert(pool0.is_allocated(f));
                }
                assert(!t0.level1().contains(f) && !t0.level2().contains(f) && f != root.0) by {
                    if t0.level1().contains(f) || t0.level2().contains(f) || f == root.0 {
                        assert(t0.nodes().contains(f));
                    }
                }
                lemma_add_l1(
                    root.0,
                    t0.level1(),
                    t0.level2(),
                    m0,
                    m1,
                    mem@,
                    f,
                    idx[0] as int,
                    entry.bits,
                );
                self.l1@ = t0.level1().insert(f);
                assert(self.owned() =~= t0.owned().push(f));
                assert forall|n: u64| #[trigger] self.nodes().contains(n) <==> self.owned().contains(
                    n,
                ) by {
                    if self.owned().contains(n) {
                        let k = choose|k: int| 0 <= k < self.owned().len() && self.owned()[k] == n;
                        if k < t0.owned().len() {
                            assert(t0.owned()[k] == n);
                            assert(t0.owned().contains(n));
                            assert(t0.nodes().contains(n));
                        }
                    }
                    if self.nodes().contains(n) {
                        if n == f {
                            assert(self.owned()[self.owned().len() - 1] == f);
                        } else {
                            assert(t0.nodes().contains(n));
                            let k = choose|k: int| 0 <= k < t0.owned().len() && t0.owned()[k] == n;
                            assert(self.owned()[k] == n);
                        }
                    }
                }
                assert(self.owned()[0] == t0.owned()[0]);
                assert forall|n: u64| #[trigger] self.nodes().contains(n) implies pool@.is_allocated(
                    n,
                ) by {
                    if n != f {
                        assert(t0.nodes().contains(n));
                    }
                }
                assert(mem@.same_but(m0, self.nodes())) by {
                    assert forall|p: u64, i: int|
                        m0.holds(p) && !self.nodes().contains(p) && 0 <= i < 512 implies #[trigger] mem@.word(
                        p,
                        i,
                    ) == m0.word(p, i) by {
                        assert(!set![root.0, f].contains(p));
                    }
                }
            }
            next
        } else {
            proof {
                assert(t0.level1().contains(pte_ppn(e0.bits)));
            }
            e0.ppn()
        };
        let ghost m2 = mem@;
        let ghost pool2 = pool@;
        let ghost t2 = *self;
        proof {
            assert forall|p: u64| #[trigger] m2.holds(p) == m0.holds(p) by {}
            assert(pool_in_memory(pool2, m2));
            assert(node1(root.0, m2, vpn.0) == Some(n1.0));
            assert(t2.level1().contains(n1.0));
            assert(t2.nodes().contains(n1.0));
        }
        let e1 = PageTableEntry { bits: mem.read_word(n1, idx[1]) };
        let n2 = if !e1.is_valid() {
            proof {
                pool2.lemma_issued();
            }
            let frame = frame_alloc(pool, mem).unwrap();
            let ghost m3 = mem@;
            // set valid
            let entry = PageTableEntry::new(frame.ppn, PTEFlags::of(PTEFlags::V));
            mem.write_word(n1, idx[1], entry.bits);
            let next = frame.ppn;
            self.frames.push(frame);
            proof {
                let f = next.0;
                lemma_pte_bits(f, PTEFlags::V);
                assert(PTEFlags::V & 1 == 1) by (bit_vector);
                if t2.nodes().contains(f) {
                    assert(pool2.is_allocated(f));
                }
                assert(!t2.level1().contains(f) && !t2.level2().contains(f) && f != root.0) by {
                    if t2.level1().contains(f) || t2.level2().contains(f) || f == root.0 {
                        assert(t2.nodes().contains(f));
                    }
                }
                lemma_add_l2(
                    root.0,
                    t2.level1(),
                    t2.level2(),
                    m2,
                    m3,
                    mem@,
                    n1.0,
                    f,
                    idx[1] as int,
                    entry.bits,
                );
                self.l2@ = t2.level2().insert(f);
                assert(self.owned() =~= t2.owned().push(f));
                assert forall|n: u64| #[trigger] self.nodes().contains(n) <==> self.owned().contains(
                    n,
                ) by {
                    if self.owned().contains(n) {
                        let k = choose|k: int| 0 <= k < self.owned().len() && self.owned()[k] == n;
                        if k < t2.owned().len() {
                            assert(t2.owned()[k] == n);
                            assert(t2.owned().contains(n));
                            assert(t2.nodes().contains(n));
                        }
                    }
                    if self.nodes().contains(n) {
                        if n == f {
                            assert(self.owned()[self.owned().len() - 1] == f);
                        } else {
                            assert(t2.nodes().contains(n));
                            let k = choose|k: int| 0 <= k < t2.owned().len() && t2.owned()[k] == n;
                            assert(self.owned()[k] == n);
                        }
                    }
                }
                assert(self.owned()[0] == t2.owned()[0]);
                assert forall|n: u64| #[trigger] self.nodes().contains(n) implies pool@.is_allocated(
                    n,
                ) by {
                    if n != f {
                        assert(t2.nodes().contains(n));
                    }
                }
                assert(mem@.same_but(m0, self.nodes())) by {
                    assert forall|p: u64, i: int|
                        m0.holds(p) && !self.nodes().contains(p) && 0 <= i < 512 implies #[trigger] mem@.word(
                        p,
                        i,
                    ) == m0.word(p, i) by {
                        assert(!set![n1.0, f].contains(p));
                        assert(!t2.nodes().contains(p)) by {
                            if t2.nodes().contains(p) {
                                assert(self.nodes().contains(p));
                            }
                        }
                        assert(m2.word(p, i) == m0.word(p, i));
                    }
                }
                assert(node1(root.0, mem@, vpn.0) == node1(root.0, m2, vpn.0));
            }
            next
        } else {
            proof {
                assert(t2.level2().contains(pte_ppn(e1.bits)));
            }
            e1.ppn()
        };
        proof {
            assert forall|p: u64| #[trigger] mem@.holds(p) == m0.holds(p) by {}
            assert(pool_in_memory(pool@, mem@));
            assert forall|v: VirtPageNum| #[trigger]
                self.mapping(mem@, v) == t0.mapping(m0, v) by {
                assert(mapping(root.0, mem@, v.0) == mapping(root.0, m2, v.0));
                assert(mapping(root.0, m2, v.0) == mapping(root.0, m0, v.0));
            }
            if t0.walk(m0, vpn).is_some() {
                assert(node2(root.0, m0, vpn.0).is_some());
            }
        }
        (n2, idx[2])
    }

    /// The entry that the walk for `vpn` ends at, by the frame that it
    /// stands in and its index there; `None` where an entry on the way is
    /// not valid or leads out of the memory.
    fn find_pte(&self, vpn: VirtPageNum, mem: &PhysMemory) -> (slot: Option<(PhysPageNum, usize)>)
        requires
            mem@.wf(),
        ensures
            match slot {
                None => node2(self.root(), mem@, vpn.0).is_none(),
                Some(s) => node2(self.root(), mem@, vpn.0) == Some(s.0.0) && s.1 == vpn_index(
                    vpn.0,
                    2,
                ),
            },
    {
        let idx = vpn.indexes();
        let root = self.level0_ppn;
        if !mem.holds(root) {
            return None;
        }
        let e0 = PageTableEntry { bits: mem.read_word(root, idx[0]) };
        if !e0.is_valid() || !mem.holds(e0.ppn()) {
            return None;
        }
        let n1 = e0.ppn();
        let e1 = PageTableEntry { bits: mem.read_word(n1, idx[1]) };
        if !e1.is_valid() || !mem.holds(e1.ppn()) {
            return None;
        }
        Some((e1.ppn(), idx[2]))
    }

    /// Maps the page `vpn` to the frame `ppn` with the flags `flags` and the
    /// valid flag.
    pub fn map(
        &mut self,
        vpn: VirtPageNum,
        ppn: PhysPageNum,
        flags: PTEFlags,
        pool: &mut StackFrameAllocator,
        mem: &mut PhysMemory,
    )
        requires
            old(pool)@.wf(),
            pool_in_memory(old(pool)@, old(mem)@),
            old(self).wf(old(mem)@, old(pool)@),
            old(pool)@.available() >= old(self).missing_levels(old(mem)@, vpn),
            old(self).mapping(old(mem)@, vpn).is_none(),
        ensures
            final(pool)@.wf(),
            pool_in_memory(final(pool)@, final(mem)@),
            final(self).wf(final(mem)@, final(pool)@),
            final(self).root() == old(self).root(),
            final(self).walk(final(mem)@, vpn) == Some(
                PageTableEntry { bits: pte_bits(ppn.0, flags.bits | 0x01) },
            ),
            forall|v: VirtPageNum|
                same_indexes(v.0, vpn.0) ==> #[trigger] final(self).walk(final(mem)@, v) == Some(
                    PageTableEntry { bits: pte_bits(ppn.0, flags.bits | 0x01) },
                ),
            forall|v: VirtPageNum|
                !same_indexes(v.0, vpn.0) ==> #[trigger] final(self).mapping(final(mem)@, v) == old(self).mapping(old(mem)@, v),
            final(mem)@.same_but(old(mem)@, final(self).nodes()),
            final(pool)@.available() == old(pool)@.available() - old(self).missing_levels(
                old(mem)@,
                vpn,
            ),
            final(pool)@.base == old(pool)@.base,
            final(pool)@.end == old(pool)@.end,
            forall|p: u64| old(pool)@.is_allocated(p) ==> final(pool)@.is_allocated(p),
            forall|p: u64|
                #[trigger] final(pool)@.is_allocated(p) ==> old(pool)@.is_allocated(p) || (final(self).nodes().contains(p) && !old(self).nodes().contains(p)),
            forall|n: u64| old(self).nodes().contains(n) ==> final(self).nodes().contains(n),
            forall|n: u64|
                #[trigger] final(self).nodes().contains(n) && !old(self).nodes().contains(n)
                    ==> !old(pool)@.is_allocated(n),
    {
        let ghost m0 = mem@;
        let ghost t0 = *self;
        let slot = self.create_pte(vpn, pool, mem);
        let ghost m1 = mem@;
        let entry = PageTableEntry::new(ppn, flags.union(PTEFlags::of(PTEFlags::V)));
        proof {
            assert(self.level2().contains(slot.0.0));
            assert(self.nodes().contains(slot.0.0));
            lemma_index_range(vpn.0);
        }
        mem.write_word(slot.0, slot.1, entry.bits);
        proof {
            lemma_set_leaf(
                self.root(),
                self.level1(),
                self.level2(),
                m1,
                mem@,
                vpn.0,
                entry.bits,
            );
            assert forall|p: u64| #[trigger] mem@.holds(p) == m1.holds(p) by {}
            assert(pool_in_memory(pool@, mem@));
            assert forall|v: VirtPageNum|
                !same_indexes(v.0, vpn.0) implies #[trigger] self.mapping(mem@, v) == t0.mapping(
                m0,
                v,
            ) by {
                assert(walk(self.root(), mem@, v.0) == walk(self.root(), m1, v.0));
                assert(self.mapping(m1, v) == t0.mapping(m0, v));
            }
            assert(mem@.same_but(m0, self.nodes())) by {
                assert forall|p: u64, i: int|
                    m0.holds(p) && !self.nodes().contains(p) && 0 <= i < 512 implies #[trigger] mem@.word(
                    p,
                    i,
                ) == m0.word(p, i) by {
                    assert(!set![slot.0.0].contains(p));
                    assert(m1.word(p, i) == m0.word(p, i));
                }
            }
            assert forall|v: VirtPageNum|
                same_indexes(v.0, vpn.0) implies #[trigger] self.walk(mem@, v) == Some(
                PageTableEntry { bits: pte_bits(ppn.0, flags.bits | 0x01) },
            ) by {
                assert(walk(self.root(), mem@, v.0) == Some(entry.bits));
            }
        }
    }

    /// Takes the mapping of the page `vpn` away.
    pub fn unmap(&mut self, vpn: VirtPageNum, pool: &StackFrameAllocator, mem: &mut PhysMemory)
        requires
            old(self).wf(old(mem)@, pool@),
            old(self).mapping(old(mem)@, vpn).is_some(),
        ensures
            final(self).wf(final(mem)@, pool@),
            final(self).root() == old(self).root(),
            final(self).nodes() == old(self).nodes(),
            final(self).walk(final(mem)@, vpn) == Some(PageTableEntry { bits: 0 }),
            final(self).mapping(final(mem)@, vpn).is_none(),
            forall|v: VirtPageNum|
                same_indexes(v.0, vpn.0) ==> #[trigger] final(self).mapping(
                    final(mem)@,
                    v,
                ).is_none(),
            forall|v: VirtPageNum|
                !same_indexes(v.0, vpn.0) ==> #[trigger] final(self).walk(final(mem)@, v) == old(self).walk(old(mem)@, v),
            forall|v: VirtPageNum|
                !same_indexes(v.0, vpn.0) ==> #[trigger] final(self).mapping(final(mem)@, v) == old(self).mapping(old(mem)@, v),
            final(mem)@.same_but(old(mem)@, final(self).nodes()),
    {
        let ghost m0 = mem@;
        let slot = self.find_pte(vpn, mem).unwrap();
        proof {
            lemma_index_range(vpn.0);
            let n1 = node1(self.root(), m0, vpn.0).unwrap();
            assert(self.level1().contains(n1));
            assert(self.level2().contains(slot.0.0));
            assert(self.nodes().contains(slot.0.0));
        }
        mem.write_word(slot.0, slot.1, PageTableEntry::empty().bits);
        proof {
            lemma_pte_bits(0, 0);
            lemma_set_leaf(self.root(), self.level1(), self.level2(), m0, mem@, vpn.0, 0);
            assert(mem@.same_but(m0, self.nodes())) by {
                assert forall|p: u64, i: int|
                    m0.holds(p) && !self.nodes().contains(p) && 0 <= i < 512 implies #[trigger] mem@.word(
                    p,
                    i,
                ) == m0.word(p, i) by {
                    assert(!set![slot.0.0].contains(p));
                }
            }
            assert forall|v: VirtPageNum|
                (same_indexes(v.0, vpn.0) ==> #[trigger] self.mapping(mem@, v).is_none())
                    && (!same_indexes(v.0, vpn.0) ==> self.walk(mem@, v) == self.walk(m0, v)
                    && self.mapping(mem@, v) == self.mapping(m0, v)) by {
                if same_indexes(v.0, vpn.0) {
                    assert(walk(self.root(), mem@, v.0) == Some(0u64));
                } else {
                    assert(walk(self.root(), mem@, v.0) == walk(self.root(), m0, v.0));
                }
            }
        }
    }

    /// A table that stands for the page table of the address space with
    /// the token `satp`. It owns no frame.
    pub fn from_token(satp: u64) -> (table: PageTable)
        ensures
            table.root() == satp & 0x0fff_ffff_ffff,
            table.owned().len() == 0,
    {
        assert((satp & 0x0fff_ffff_ffff) & 0x0fff_ffff_ffff == satp & 0x0fff_ffff_ffff)
            by (bit_vector);
        PageTable {
            level0_ppn: PhysPageNum::from(satp & PPN_MASK),
            frames: Vec::new(),
            l1: Ghost(Set::empty()),
            l2: Ghost(Set::empty()),
        }
    }

    /// The entry that the walk for `vpn` ends at, valid or not; `None`
    /// where the walk does not reach the third level.
    pub fn translate(&self, vpn: VirtPageNum, mem: &PhysMemory) -> (pte: Option<PageTableEntry>)
        requires
            mem@.wf(),
        ensures
            pte == self.walk(mem@, vpn),
    {
        match self.find_pte(vpn, mem) {
            None => None,
            Some(slot) => {
                proof {
                    lemma_index_range(vpn.0);
                }
                Some(PageTableEntry { bits: mem.read_word(slot.0, slot.1) })
            },
        }
    }

    /// The physical address that the virtual address `va` stands for: the
    /// page of the entry that the walk ends at, and the offset of `va`.
    pub fn translate_va(&self, va: VirtAddr, mem: &PhysMemory) -> (pa: Option<PhysAddr>)
        requires
            mem@.wf(),
        ensures
            match self.walk(mem@, VirtPageNum(va.0 / 4096)) {
                None => pa.is_none(),
                Some(pte) => pa == Some(
                    PhysAddr(
                        ((((pte_ppn(pte.bits) << 12) + va.0 % 4096) as u64) & 0x00ff_ffff_ffff_ffff),
                    ),
                ),
            },
    {
        match self.translate(va.floor(), mem) {
            None => None,
            Some(pte) => {
                let aligned_pa: PhysAddr = PhysAddr::from(pte.ppn());
                let offset = va.page_offset();
                let aligned: u64 = u64::from(aligned_pa);
                proof {
                    crate::address::lemma_page_address(pte_ppn(pte.bits));
                }
                Some(PhysAddr::from(aligned + offset))
            },
        }
    }

    /// The token of the address space: the mode of Sv39 in the top bits and
    /// the number of the root frame below.
    pub fn to_satp(&self) -> (satp: u64)
        ensures
            satp == (8u64 << 60) | self.root(),
    {
        8u64 << 60 | self.level0_ppn.0
    }

    /// The frame of the root.
    pub fn root_ppn(&self) -> (ppn: PhysPageNum)
        ensures
            ppn.0 == self.root(),
    {
        self.level0_ppn
    }

    /// Number of frames that the table has taken from the pool.
    pub fn frame_count(&self) -> (n: usize)
        ensures
            n == self.owned().len(),
    {
        self.frames.len()
    }
}

} // verus!

verus! {

/// A run of bytes of one frame: those from `start` up to `end`.
#[derive(Copy, Clone, PartialEq, Eq, Structural, Debug)]
pub struct ByteSpan {
    pub ppn: PhysPageNum,
    pub start: usize,
    pub end: usize,
}

/// The frame of the root of the address space with the token `token`.
pub open spec fn token_root(token: u64) -> u64 {
    token & 0x0fff_ffff_ffff
}

/// Number of pages that the `len` bytes from the address `ptr` on lie in.
pub open spec fn pages_touched(ptr: u64, len: u64) -> int {
    if len == 0 {
        0
    } else {
        (ptr + len - 1) / 4096 - ptr / 4096 + 1
    }
}

/// The run of bytes that the `len` bytes from the virtual address `ptr` on
/// have in the `k`-th page that they lie in.
pub open spec fn span_at(root: u64, m: FrameModel, ptr: u64, len: u64, k: int) -> ByteSpan {
    let vpn = (ptr / 4096 + k) as u64;
    ByteSpan {
        ppn: PhysPageNum(pte_ppn(walk(root, m, vpn).unwrap())),
        start: if k == 0 {
            (ptr % 4096) as usize
        } else {
            0
        },
        end: if k == pages_touched(ptr, len) - 1 {
            ((ptr + len - 1) % 4096 + 1) as usize
        } else {
            4096
        },
    }
}

/// Where the `len` bytes from the virtual address `ptr` on stand in the
/// physical memory, in the address space with the token `token`: one run of
/// bytes for each page that they lie in.
pub fn translated_byte_buffer(token: u64, ptr: u64, len: u64, mem: &PhysMemory) -> (spans: Vec<ByteSpan>)
    requires
        mem@.wf(),
        ptr + len <= 0x3f_ffff_ffff,
        forall|k: int|
            0 <= k < pages_touched(ptr, len) ==> (#[trigger] walk(
                token_root(token),
                mem@,
                (ptr / 4096 + k) as u64,
            )).is_some(),
    ensures
        spans@.len() == pages_touched(ptr, len),
        forall|k: int|
            0 <= k < spans@.len() ==> #[trigger] spans@[k] == span_at(
                token_root(token),
                mem@,
                ptr,
                len,
                k,
            ),
{
    let page_table = PageTable::from_token(token);
    let ghost root = token_root(token);
    let mut start = ptr;
    let end = start + len;
    let mut v: Vec<ByteSpan> = Vec::new();
    let ghost total = pages_touched(ptr, len);
    while start < end
        invariant
            end == ptr + len,
            end <= 0x3f_ffff_ffff,
            mem@.wf(),
            page_table.root() == root,
            total == pages_touched(ptr, len),
            start == buffer_cursor(ptr, len, v@.len() as int),
            v@.len() <= total,
            forall|k: int|
                0 <= k < total ==> (#[trigger] walk(root, mem@, (ptr / 4096 + k) as u64)).is_some(),
            forall|k: int| 0 <= k < v@.len() ==> #[trigger] v@[k] == span_at(root, mem@, ptr, len, k),
        decreases end - start,
    {
        let ghost k = v@.len() as int;
        proof {
            lemma_buffer_step(ptr, len, k);
            assert(walk(root, mem@, (ptr / 4096 + k) as u64).is_some());
        }
        let (span, next) = buffer_span(&page_table, mem, start, end);
        v.push(span);
        proof {
            assert(v@[k] == span_at(root, mem@, ptr, len, k));
        }
        start = next;
    }
    proof {
        if v@.len() < total {
            lemma_buffer_step(ptr, len, v@.len() as int);
        }
    }
    v
}

/// The run of the bytes from `start` up to `end` that lies in the page of
/// `start`, and the address at which the next run starts.
fn buffer_span(page_table: &PageTable, mem: &PhysMemory, start: u64, end: u64) -> (result: (
    ByteSpan,
    u64,
))
    requires
        mem@.wf(),
        start < end <= 0x3f_ffff_ffff,
        walk(page_table.root(), mem@, start / 4096).is_some(),
    ensures
        result.0.ppn.0 == pte_ppn(walk(page_table.root(), mem@, start / 4096).unwrap()),
        result.0.start == start % 4096,
        result.1 == (if (start / 4096 + 1) * 4096 < end {
            (start / 4096 + 1) * 4096
        } else {
            end as int
        }),
        result.0.end == (if result.1 % 4096 == 0 {
            4096
        } else {
            result.1 % 4096
        }),
{
    proof {
        crate::address::lemma_masks(start);
        crate::address::lemma_masks(end);
        vstd::arithmetic::div_mod::lemma_small_mod(start as nat, 0x80_0000_0000);
        vstd::arithmetic::div_mod::lemma_small_mod(end as nat, 0x80_0000_0000);
    }
    let start_va = VirtAddr::from(start);
    let mut vpn = start_va.floor();
    let ppn = page_table.translate(vpn, mem).unwrap().ppn();
    vpn = vpn.next();
    proof {
        crate::address::lemma_page_address(vpn.0);
        crate::address::lemma_masks((vpn.0 << 12) as u64);
        vstd::arithmetic::div_mod::lemma_small_mod((vpn.0 * 4096) as nat, 0x80_0000_0000);
    }
    let mut end_va: VirtAddr = VirtAddr::from(vpn);
    let limit = VirtAddr::from(end);
    if limit.0 < end_va.0 {
        end_va = limit;
    }
    let offset = start_va.page_offset() as usize;
    let span = if end_va.page_offset() == 0 {
        ByteSpan { ppn, start: offset, end: 4096 }
    } else {
        ByteSpan { ppn, start: offset, end: end_va.page_offset() as usize }
    };
    (span, u64::from(end_va))
}

/// The address at which the `k`-th run of the `len` bytes from `ptr` on
/// starts: `ptr` for the first, the start of a page for each later one, and
/// the end of the bytes once all runs are through.
pub open spec fn buffer_cursor(ptr: u64, len: u64, k: int) -> int {
    if k == 0 {
        ptr as int
    } else if k < pages_touched(ptr, len) {
        (ptr / 4096 + k) * 4096
    } else {
        ptr + len
    }
}

/// The `k`-th run of the `len` bytes from `ptr` on starts in the page
/// `ptr / 4096 + k` and ends at the end of that page or of the bytes.
pub proof fn lemma_buffer_step(ptr: u64, len: u64, k: int)
    requires
        0 <= k < pages_touched(ptr, len),
        ptr + len <= 0x3f_ffff_ffff,
    ensures
        len > 0,
        buffer_cursor(ptr, len, k) < ptr + len,
        buffer_cursor(ptr, len, k) / 4096 == ptr / 4096 + k,
        k > 0 ==> buffer_cursor(ptr, len, k) % 4096 == 0,
        buffer_cursor(ptr, len, k + 1) == (if (ptr / 4096 + k + 1) * 4096 < ptr + len {
            (ptr / 4096 + k + 1) * 4096
        } else {
            ptr + len
        }),
        k + 1 < pages_touched(ptr, len) <==> (ptr / 4096 + k + 1) * 4096 < ptr + len,
        k + 1 == pages_touched(ptr, len) ==> (ptr + len - 1) / 4096 == ptr / 4096 + k,
{
    let first = ptr as int / 4096;
    let last = (ptr + len - 1) / 4096;
    assert(pages_touched(ptr, len) == last - first + 1);
    assert(k <= last - first);
    if k + 1 < pages_touched(ptr, len) {
        assert(first + k + 1 <= last);
        assert((first + k + 1) * 4096 <= last * 4096);
    } else {
        assert(first + k == last);
    }
}

/// `String::push` appends the given character to the end of the string.
pub assume_specification[ String::push ](s: &mut String, ch: char)
    ensures
        final(s)@ == old(s)@.push(ch),
;

/// The byte at the virtual address `va` in the address space with the root
/// `root`, where the page of `va` is mapped to a frame of the memory.
pub open spec fn byte_at(root: u64, m: FrameModel, va: u64) -> Option<u8> {
    match walk(root, m, va / 4096) {
        None => None,
        Some(bits) => if m.holds(pte_ppn(bits)) {
            Some(m.byte(pte_ppn(bits), (va % 4096) as int))
        } else {
            None
        },
    }
}

/// The `n` bytes from `ptr` on are none of them zero, and a zero byte
/// follows them; all of them lie in the lower half of the address space.
pub open spec fn ends_after(root: u64, m: FrameModel, ptr: u64, n: nat) -> bool {
    &&& ptr + n <= 0x3f_ffff_ffff
    &&& byte_at(root, m, (ptr + n) as u64) == Some(0u8)
    &&& forall|i: nat|
        i < n ==> (#[trigger] byte_at(root, m, (ptr + i) as u64)).is_some() && byte_at(
            root,
            m,
            (ptr + i) as u64,
        ) != Some(0u8)
}

/// The string of the bytes from the virtual address `ptr` up to the first
/// zero byte, in the address space with the token `token`.
pub fn translated_str(token: u64, ptr: u64, mem: &PhysMemory) -> (string: String)
    requires
        mem@.wf(),
        exists|n: nat| ends_after(token_root(token), mem@, ptr, n),
    ensures
        ends_after(token_root(token), mem@, ptr, string@.len()),
        forall|i: int|
            0 <= i < string@.len() ==> Some(#[trigger] string@[i] as u8) == byte_at(
                token_root(token),
                mem@,
                (ptr + i) as u64,
            ),
{
    let page_table = PageTable::from_token(token);
    let ghost root = token_root(token);
    let ghost n = choose|n: nat| ends_after(root, mem@, ptr, n);
    let mut string = String::new();
    let mut va = ptr;
    loop
        invariant_except_break
            va == ptr + string@.len(),
            string@.len() <= n,
        invariant
            mem@.wf(),
            page_table.root() == root,
            ends_after(root, mem@, ptr, n),
            forall|i: int|
                0 <= i < string@.len() ==> Some(#[trigger] string@[i] as u8) == byte_at(
                    root,
                    mem@,
                    (ptr + i) as u64,
                ),
        ensures
            string@.len() == n,
        decreases n - string@.len(),
    {
        let ghost k = string@.len();
        proof {
            crate::address::lemma_masks(va);
            vstd::arithmetic::div_mod::lemma_small_mod(va as nat, 0x80_0000_0000);
            assert(byte_at(root, mem@, (ptr + k) as u64).is_some());
        }
        let pa = page_table.translate_va(VirtAddr::from(va), mem).unwrap();
        proof {
            let bits = walk(root, mem@, va / 4096).unwrap();
            let frame = pte_ppn(bits);
            crate::address::lemma_page_address(frame);
            crate::address::lemma_masks(((frame << 12) + va % 4096) as u64);
            vstd::arithmetic::div_mod::lemma_small_mod(
                (frame * 4096 + va % 4096) as nat,
                0x0100_0000_0000_0000,
            );
            assert(pa.0 == frame * 4096 + va % 4096);
            assert(pa.0 / 4096 == frame);
            assert(pa.0 % 4096 == va % 4096);
        }
        let ch: u8 = mem.read_byte(pa.floor(), pa.page_offset() as usize);
        if ch == 0 {
            proof {
                if k < n {
                    assert(byte_at(root, mem@, (ptr + k) as u64) != Some(0u8));
                }
            }
            break ;
        } else {
            string.push(ch as char);
            va += 1;
        }
    }
    string
}

} // verus!
