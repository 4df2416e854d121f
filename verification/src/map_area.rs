//! A mapped region of an address space: a range of virtual pages that are
//! mapped with one permission, each to the frame of the same number or to a
//! frame of its own that the region has taken from the pool.

use vstd::prelude::*;
use crate::address::{vpn_index, PhysPageNum, VirtAddr, VirtPageNum};
use crate::frame_allocator::{frame_alloc, frame_dealloc, FramePool, FrameTracker, StackFrameAllocator};
use crate::page_table::{
    lemma_index_range, lemma_pte_bits, mapping, missing_levels, node1, node2, pool_in_memory,
    pte_bits, pte_ppn, pte_valid, same_indexes, walk, PTEFlags, PageTable, PageTableEntry,
};
use crate::phys_memory::{FrameModel, PhysMemory};
use crate::range::Range;

verus! {

/// How the pages of a region get their frames.
#[derive(Copy, Clone, PartialEq, Eq, Structural, Debug)]
pub enum MapType {
    /// Each page is mapped to the frame of the same number.
    Identical,
    /// Each page is mapped to a frame of its own.
    Framed,
}

/// What may be done with the pages of a region.
#[derive(Copy, Clone, PartialEq, Eq, Structural, Debug)]
pub struct MapPermission {
    pub bits: u8,
}

impl MapPermission {
    /// The pages can be read.
    pub const R: u8 = 0x02;

    /// The pages can be written.
    pub const W: u8 = 0x04;

    /// The pages can be executed.
    pub const X: u8 = 0x08;

    /// The pages can be used in user mode.
    pub const U: u8 = 0x10;

    /// The permission whose bits are set in `bits`; other bits than those of
    /// the four permissions are dropped.
    pub fn of(bits: u8) -> (perm: MapPermission)
        ensures
            perm.bits == bits & 0x1e,
    {
        MapPermission { bits: bits & 0x1e }
    }

    /// The permission as a byte.
    pub fn bits(&self) -> (bits: u8)
        ensures
            bits == self.bits,
    {
        self.bits
    }

    /// The permissions of both.
    pub fn union(self, other: MapPermission) -> (perm: MapPermission)
        ensures
            perm.bits == self.bits | other.bits,
    {
        MapPermission { bits: self.bits | other.bits }
    }

    /// Whether every permission of `other` is given.
    pub fn contains(&self, other: MapPermission) -> (b: bool)
        ensures
            b == (self.bits & other.bits == other.bits),
    {
        self.bits & other.bits == other.bits
    }
}

/// Number of frames that a page table without mappings takes to map the
/// pages from `s` up to `e`: one for each group of 512 pages and one for
/// each group of 512 such groups that the range meets.
pub open spec fn span_frames(s: u64, e: u64) -> int {
    if s >= e {
        0
    } else {
        ((e - 1) / 512 - s / 512 + 1) + ((e - 1) / 0x40000 - s / 0x40000 + 1)
    }
}

/// Number of frames that a page table without mappings takes to map the
/// pages from `s` up to `e`.
pub fn span_frame_count(s: u64, e: u64) -> (n: u64)
    ensures
        n == span_frames(s, e),
        n <= e / 512 + e / 0x40000 + 2,
{
    if s >= e {
        0
    } else {
        ((e - 1) / 512 - s / 512 + 1) + ((e - 1) / 0x40000 - s / 0x40000 + 1)
    }
}

/// Page numbers of 27 bits with the same indexes are the same.
pub proof fn lemma_indexes_injective(v: u64, w: u64)
    requires
        v < 0x800_0000,
        w < 0x800_0000,
        same_indexes(v, w),
    ensures
        v == w,
{
    assert(v < 0x800_0000 && w < 0x800_0000 && (v / 0x40000) % 512 == (w / 0x40000) % 512 && (v
        / 512) % 512 == (w / 512) % 512 && v % 512 == w % 512 ==> v == w) by (bit_vector);
}

/// The page after `v` has the same first index unless it starts a group of
/// 512 times 512 pages, and the same second index unless it starts a group of
/// 512 pages; the frames that a range takes grow by one for each.
pub proof fn lemma_next_page(s: u64, v: u64)
    requires
        s <= v < 0x7ff_ffff,
    ensures
        (v + 1) % 0x40000 != 0 ==> vpn_index((v + 1) as u64, 0) == vpn_index(v, 0),
        (v + 1) % 512 != 0 ==> vpn_index((v + 1) as u64, 0) == vpn_index(v, 0) && vpn_index(
            (v + 1) as u64,
            1,
        ) == vpn_index(v, 1),
        span_frames(s, (v + 2) as u64) == span_frames(s, (v + 1) as u64) + (if (v + 1) % 512 == 0 {
            1int
        } else {
            0int
        }) + (if (v + 1) % 0x40000 == 0 {
            1int
        } else {
            0int
        }),
        span_frames(s, (s + 1) as u64) == 2,
        (v + 1) % 0x40000 == 0 ==> (v + 1) % 512 == 0,
{
    let w = (v + 1) as u64;
    assert(w % 512 != 0 ==> w / 512 == v / 512);
    assert(w % 512 == 0 ==> w / 512 == v / 512 + 1);
    assert(w % 0x40000 != 0 ==> w / 0x40000 == v / 0x40000);
    assert(w % 0x40000 == 0 ==> w / 0x40000 == v / 0x40000 + 1);
    assert(w % 0x40000 == 0 ==> w % 512 == 0);
    assert(w / 0x40000 == (w / 512) / 512);
    assert(v / 0x40000 == (v / 512) / 512);
}

/// Copies the `count` bytes of `data` from `from` on to the start of the
/// frame `ppn`.
pub fn copy_page(mem: &mut PhysMemory, ppn: PhysPageNum, data: &[u8], from: usize, count: usize)
    requires
        old(mem)@.wf(),
        old(mem)@.holds(ppn.0),
        count <= 4096,
        from + count <= data@.len(),
    ensures
        final(mem)@.wf(),
        final(mem)@.same_but(old(mem)@, set![ppn.0]),
        forall|i: int|
            0 <= i < 4096 ==> #[trigger] final(mem)@.byte(ppn.0, i) == (if i < count {
                data@[from + i]
            } else {
                old(mem)@.byte(ppn.0, i)
            }),
{
    let ghost m0 = mem@;
    let total = data.len();
    let mut i: usize = 0;
    while i < count
        invariant
            i <= count <= 4096,
            from + count <= data@.len(),
            total == data@.len(),
            m0.wf(),
            m0.holds(ppn.0),
            mem@.wf(),
            mem@.same_but(m0, set![ppn.0]),
            forall|j: int|
                0 <= j < 4096 ==> #[trigger] mem@.byte(ppn.0, j) == (if j < i {
                    data@[from + j]
                } else {
                    m0.byte(ppn.0, j)
                }),
        decreases count - i,
    {
        let ghost m1 = mem@;
        let byte = data[from + i];
        mem.write_byte(ppn, i, byte);
        proof {
            let m2 = mem@;
            assert forall|j: int| 0 <= j < 4096 implies #[trigger] m2.byte(ppn.0, j) == (if j < i
                + 1 {
                data@[from + j]
            } else {
                m0.byte(ppn.0, j)
            }) by {
                assert(m2.page(ppn.0)[j] == m1.page(ppn.0).update(i as int, byte)[j]);
                assert(m1.page(ppn.0)[j] == m1.byte(ppn.0, j));
            }
            assert(m2.same_but(m0, set![ppn.0])) by {
                assert forall|p: u64, k: int|
                    m0.holds(p) && !set![ppn.0].contains(p) && 0 <= k < 512 implies #[trigger] m2.word(
                    p,
                    k,
                ) == m0.word(p, k) by {
                    assert(m1.word(p, k) == m0.word(p, k));
                    assert(m1.holds(p));
                }
            }
        }
        i += 1;
    }
}

/// A region.
pub struct MapArea {
    vpn_range: Range<VirtPageNum>,
    data_frames: Vec<FrameTracker>,
    map_type: MapType,
    map_perm: MapPermission,
}

impl MapArea {
    /// Number of the first page.
    pub closed spec fn start(&self) -> u64 {
        self.vpn_range.first().0
    }

    /// Number of the page that the region ends before.
    pub closed spec fn end(&self) -> u64 {
        self.vpn_range.last().0
    }

    /// How the pages get their frames.
    pub closed spec fn kind(&self) -> MapType {
        self.map_type
    }

    /// What may be done with the pages.
    pub closed spec fn perm(&self) -> MapPermission {
        self.map_perm
    }

    /// The frames that the region has taken, in the order of its pages.
    pub closed spec fn frames(&self) -> Seq<u64> {
        Seq::new(self.data_frames@.len(), |k: int| self.data_frames@[k].ppn.0)
    }

    /// The frame of the page `vpn` of the region.
    pub open spec fn frame_of(&self, vpn: u64) -> u64 {
        match self.kind() {
            MapType::Identical => vpn,
            MapType::Framed => self.frames()[vpn - self.start()],
        }
    }

    /// The entry that maps the page `vpn` of the region.
    pub open spec fn entry_of(&self, vpn: u64) -> PageTableEntry {
        PageTableEntry { bits: pte_bits(self.frame_of(vpn), self.perm().bits | 0x01) }
    }

    /// Number of frames that mapping the region takes at most.
    pub open spec fn frames_needed(&self) -> int {
        span_frames(self.start(), self.end()) + (match self.kind() {
            MapType::Identical => 0int,
            MapType::Framed => self.end() - self.start(),
        })
    }

    /// The pages of the region are page numbers of 27 bits.
    pub open spec fn inv(&self) -> bool {
        self.start() <= self.end() <= 0x800_0000
    }

    /// The pages from the first up to `upto` are mapped by `table`, each to
    /// its frame; the frames that the region has taken are issued by the
    /// pool, stand in the memory outside the table, and are all different.
    pub open spec fn mapped_upto(
        &self,
        table: &PageTable,
        m: FrameModel,
        pool: FramePool,
        upto: u64,
    ) -> bool {
        &&& self.inv()
        &&& self.start() <= upto <= self.end()
        &&& (self.kind() == MapType::Framed ==> self.frames().len() == upto - self.start())
        &&& (self.kind() == MapType::Identical ==> self.frames().len() == 0)
        &&& forall|v: u64|
            self.start() <= v < upto ==> #[trigger] table.mapping(m, VirtPageNum(v)) == Some(
                self.entry_of(v),
            )
        &&& forall|k: int|
            0 <= k < self.frames().len() ==> {
                let f = #[trigger] self.frames()[k];
                &&& pool.is_allocated(f)
                &&& m.holds(f)
                &&& !table.nodes().contains(f)
            }
        &&& self.frames().no_duplicates()
    }

    /// All pages of the region are mapped by `table`.
    pub open spec fn mapped_in(&self, table: &PageTable, m: FrameModel, pool: FramePool) -> bool {
        self.mapped_upto(table, m, pool, self.end())
    }

    /// The region of the pages that hold the addresses from `start_va` up
    /// to `end_va`. No page is mapped yet.
    pub fn new(start_va: VirtAddr, end_va: VirtAddr, map_type: MapType, map_perm: MapPermission) -> (area: MapArea)
        requires
            start_va.0 <= end_va.0 <= 0x7f_ffff_ffff,
        ensures
            area.start() == start_va.0 / 4096,
            area.end() == (end_va.0 + 4095) / 4096,
            area.kind() == map_type,
            area.perm() == map_perm,
            area.frames().len() == 0,
            area.inv(),
    {
        let start_vpn: VirtPageNum = start_va.floor();
        let end_vpn: VirtPageNum = end_va.ceil();
        MapArea {
            vpn_range: Range::new(start_vpn, end_vpn),
            data_frames: Vec::new(),
            map_type,
            map_perm,
        }
    }

    /// A region of the same pages, kind and permission as `another`. No page
    /// is mapped yet.
    pub fn from_another(another: &MapArea) -> (area: MapArea)
        ensures
            area.start() == another.start(),
            area.end() == another.end(),
            area.kind() == another.kind(),
            area.perm() == another.perm(),
            area.frames().len() == 0,
    {
        MapArea {
            vpn_range: Range::new(another.vpn_range.get_start(), another.vpn_range.get_end()),
            data_frames: Vec::new(),
            map_type: another.map_type,
            map_perm: another.map_perm,
        }
    }

    /// Maps the page `vpn`, the first page of the region that is not yet
    /// mapped: to the frame of its own number, or to a frame that is taken
    /// from the pool.
    pub fn map_one(
        &mut self,
        table: &mut PageTable,
        vpn: VirtPageNum,
        pool: &mut StackFrameAllocator,
        mem: &mut PhysMemory,
    )
        requires
            old(pool)@.wf(),
            pool_in_memory(old(pool)@, old(mem)@),
            old(table).wf(old(mem)@, old(pool)@),
            old(self).mapped_upto(old(table), old(mem)@, old(pool)@, vpn.0),
            vpn.0 < old(self).end(),
            old(table).mapping(old(mem)@, vpn).is_none(),
            old(pool)@.available() >= old(table).missing_levels(old(mem)@, vpn) + (if old(self).kind() == MapType::Framed {
                1int
            } else {
                0int
            }),
        ensures
            final(pool)@.wf(),
            pool_in_memory(final(pool)@, final(mem)@),
            final(table).wf(final(mem)@, final(pool)@),
            final(table).root() == old(table).root(),
            final(self).mapped_upto(final(table), final(mem)@, final(pool)@, (vpn.0 + 1) as u64),
            final(self).start() == old(self).start(),
            final(self).end() == old(self).end(),
            final(self).kind() == old(self).kind(),
            final(self).perm() == old(self).perm(),
            final(self).kind() == MapType::Framed ==> final(self).frames().drop_last() == old(self).frames() && !old(pool)@.is_allocated(final(self).frames().last()) && (forall|i: int|
                0 <= i < 512 ==> final(mem)@.word(final(self).frames().last(), i) == 0),
            final(self).kind() == MapType::Identical ==> final(self).frames() == old(self).frames(),
            forall|v: VirtPageNum|
                v.0 < 0x800_0000 && v.0 != vpn.0 ==> #[trigger] final(table).mapping(
                    final(mem)@,
                    v,
                ) == old(table).mapping(old(mem)@, v),
            final(mem)@.base == old(mem)@.base,
            final(mem)@.words.len() == old(mem)@.words.len(),
            forall|p: u64, i: int|
                old(mem)@.holds(p) && old(pool)@.is_allocated(p) && !old(table).nodes().contains(p)
                    && 0 <= i < 512 ==> #[trigger] final(mem)@.word(p, i) == old(mem)@.word(p, i),
            final(pool)@.available() == old(pool)@.available() - old(table).missing_levels(
                old(mem)@,
                vpn,
            ) - (if old(self).kind() == MapType::Framed {
                1int
            } else {
                0int
            }),
            final(pool)@.base == old(pool)@.base,
            final(pool)@.end == old(pool)@.end,
            forall|p: u64| old(pool)@.is_allocated(p) ==> final(pool)@.is_allocated(p),
            forall|n: u64| old(table).nodes().contains(n) ==> final(table).nodes().contains(n),
            forall|n: u64|
                #[trigger] final(table).nodes().contains(n) && !old(table).nodes().contains(n)
                    ==> !old(pool)@.is_allocated(n),
    {
        let ghost m0 = mem@;
        let ghost pool0 = pool@;
        let ghost t0 = *table;
        let ghost a0 = *self;
        let ppn = match self.map_type {
            MapType::Identical => PhysPageNum(vpn.0),
            MapType::Framed => {
                proof {
                    pool0.lemma_issued();
                }
                let frame = frame_alloc(pool, mem).unwrap();
                let ppn = frame.ppn;
                self.data_frames.push(frame);
                proof {
                    assert(self.frames() =~= a0.frames().push(ppn.0));
                    assert(self.frames().drop_last() =~= a0.frames());
                    if t0.nodes().contains(ppn.0) {
                        assert(pool0.is_allocated(ppn.0));
                    }
                    table.lemma_frame(m0, pool0, mem@, pool@, set![ppn.0]);
                    assert forall|p: u64| #[trigger] mem@.holds(p) == m0.holds(p) by {}
                }
                ppn
            },
        };
        let ghost m1 = mem@;
        let ghost pool1 = pool@;
        proof {
            assert(table.mapping(m1, vpn) == t0.mapping(m0, vpn));
            assert(table.missing_levels(m1, vpn) == t0.missing_levels(m0, vpn));
            assert(pool_in_memory(pool1, m1));
        }
        let flags = PTEFlags::from_bits(self.map_perm.bits).unwrap();
        table.map(vpn, ppn, flags, pool, mem);
        proof {
            let m2 = mem@;
            let pool2 = pool@;
            assert forall|v: VirtPageNum|
                v.0 < 0x800_0000 && v.0 != vpn.0 implies #[trigger] table.mapping(m2, v)
                == t0.mapping(m0, v) by {
                if same_indexes(v.0, vpn.0) {
                    lemma_indexes_injective(v.0, vpn.0);
                }
                assert(t0.mapping(m1, v) == t0.mapping(m0, v));
            }
            assert forall|v: u64| self.start() <= v < vpn.0 + 1 implies #[trigger] table.mapping(
                m2,
                VirtPageNum(v),
            ) == Some(self.entry_of(v)) by {
                if v != vpn.0 {
                    assert(table.mapping(m2, VirtPageNum(v)) == t0.mapping(m0, VirtPageNum(v)));
                    assert(a0.entry_of(v) == self.entry_of(v)) by {
                        if self.kind() == MapType::Framed {
                            assert(self.frames()[v - self.start()] == a0.frames()[v - self.start()]);
                        }
                    }
                } else {
                    lemma_pte_bits(ppn.0, self.perm().bits | 0x01);
                    let b = self.perm().bits;
                    assert((b | 0x01) & 1 == 1) by (bit_vector);
                    assert(table.walk(m2, vpn) == Some(self.entry_of(v)));
                    assert(pte_valid(pte_bits(ppn.0, b | 0x01)));
                }
            }
            assert forall|k: int| 0 <= k < self.frames().len() implies {
                let f = #[trigger] self.frames()[k];
                &&& pool2.is_allocated(f)
                &&& m2.holds(f)
                &&& !table.nodes().contains(f)
            } by {
                let f = self.frames()[k];
                if k < a0.frames().len() {
                    assert(f == a0.frames()[k]);
                    assert(pool0.is_allocated(f));
                }
                assert(pool1.is_allocated(f));
                assert(m1.holds(f));
            }
            assert(self.frames().no_duplicates()) by {
                assert forall|i: int, j: int|
                    0 <= i < self.frames().len() && 0 <= j < self.frames().len() && i
                        != j implies self.frames()[i] != self.frames()[j] by {
                    if i < a0.frames().len() {
                        assert(self.frames()[i] == a0.frames()[i]);
                        assert(pool0.is_allocated(a0.frames()[i]));
                    }
                    if j < a0.frames().len() {
                        assert(self.frames()[j] == a0.frames()[j]);
                        assert(pool0.is_allocated(a0.frames()[j]));
                    }
                }
            }
            assert forall|p: u64, i: int|
                m0.holds(p) && pool0.is_allocated(p) && !t0.nodes().contains(p) && 0 <= i
                    < 512 implies #[trigger] m2.word(p, i) == m0.word(p, i) by {
                assert(m1.word(p, i) == m0.word(p, i));
                if table.nodes().contains(p) {
                    assert(!pool1.is_allocated(p));
                }
            }
            if self.kind() == MapType::Framed {
                let f = self.frames().last();
                assert(f == ppn.0);
                assert forall|i: int| 0 <= i < 512 implies m2.word(f, i) == 0 by {
                    if table.nodes().contains(f) {
                        assert(!pool1.is_allocated(f));
                    }
                    assert(m1.word(f, i) == 0);
                }
            }
        }
    }

    /// Maps the pages of the region.
    pub fn map(&mut self, table: &mut PageTable, pool: &mut StackFrameAllocator, mem: &mut PhysMemory)
        requires
            old(pool)@.wf(),
            pool_in_memory(old(pool)@, old(mem)@),
            old(table).wf(old(mem)@, old(pool)@),
            old(self).inv(),
            old(self).frames().len() == 0,
            forall|v: u64|
                old(self).start() <= v < old(self).end() ==> #[trigger] old(table).mapping(
                    old(mem)@,
                    VirtPageNum(v),
                ).is_none(),
            old(pool)@.available() >= old(self).frames_needed(),
        ensures
            final(pool)@.wf(),
            pool_in_memory(final(pool)@, final(mem)@),
            final(table).wf(final(mem)@, final(pool)@),
            final(table).root() == old(table).root(),
            final(self).mapped_in(final(table), final(mem)@, final(pool)@),
            final(self).start() == old(self).start(),
            final(self).end() == old(self).end(),
            final(self).kind() == old(self).kind(),
            final(self).perm() == old(self).perm(),
            forall|k: int|
                0 <= k < final(self).frames().len() ==> !old(pool)@.is_allocated(
                    #[trigger] final(self).frames()[k],
                ),
            forall|k: int, i: int|
                0 <= k < final(self).frames().len() && 0 <= i < 512 ==> #[trigger] final(mem)@.word(
                    final(self).frames()[k],
                    i,
                ) == 0,
            forall|v: VirtPageNum|
                v.0 < 0x800_0000 && !(old(self).start() <= v.0 < old(self).end())
                    ==> #[trigger] final(table).mapping(final(mem)@, v) == old(table).mapping(
                    old(mem)@,
                    v,
                ),
            final(mem)@.base == old(mem)@.base,
            final(mem)@.words.len() == old(mem)@.words.len(),
            forall|p: u64, i: int|
                old(mem)@.holds(p) && old(pool)@.is_allocated(p) && !old(table).nodes().contains(p)
                    && 0 <= i < 512 ==> #[trigger] final(mem)@.word(p, i) == old(mem)@.word(p, i),
            final(pool)@.available() >= old(pool)@.available() - old(self).frames_needed(),
            final(pool)@.base == old(pool)@.base,
            final(pool)@.end == old(pool)@.end,
            forall|p: u64| old(pool)@.is_allocated(p) ==> final(pool)@.is_allocated(p),
            forall|n: u64| old(table).nodes().contains(n) ==> final(table).nodes().contains(n),
            forall|n: u64|
                #[trigger] final(table).nodes().contains(n) && !old(table).nodes().contains(n)
                    ==> !old(pool)@.is_allocated(n),
    {
        let ghost m0 = mem@;
        let ghost pool0 = pool@;
        let ghost t0 = *table;
        let ghost a0 = *self;
        let start = self.vpn_range.get_start().0;
        let end = self.vpn_range.get_end().0;
        let ghost data: int = if self.kind() == MapType::Framed { 1 } else { 0 };
        let mut cur = start;
        while cur < end
            invariant
                start <= cur <= end <= 0x800_0000,
                start == a0.start(),
                end == a0.end(),
                self.start() == a0.start(),
                self.end() == a0.end(),
                self.kind() == a0.kind(),
                self.perm() == a0.perm(),
                data == (if self.kind() == MapType::Framed { 1int } else { 0int }),
                pool@.wf(),
                pool_in_memory(pool@, mem@),
                table.wf(mem@, pool@),
                table.root() == t0.root(),
                self.mapped_upto(table, mem@, pool@, cur),
                forall|v: u64|
                    cur <= v < end ==> #[trigger] table.mapping(mem@, VirtPageNum(v)).is_none(),
                forall|v: VirtPageNum|
                    v.0 < 0x800_0000 && !(start <= v.0 < end) ==> #[trigger] table.mapping(mem@, v)
                        == t0.mapping(m0, v),
                forall|k: int|
                    0 <= k < self.frames().len() ==> !pool0.is_allocated(#[trigger] self.frames()[k]),
                forall|k: int, i: int|
                    0 <= k < self.frames().len() && 0 <= i < 512 ==> #[trigger] mem@.word(
                        self.frames()[k],
                        i,
                    ) == 0,
                mem@.base == m0.base,
                mem@.words.len() == m0.words.len(),
                forall|p: u64, i: int|
                    m0.holds(p) && pool0.is_allocated(p) && !t0.nodes().contains(p) && 0 <= i < 512
                        ==> #[trigger] mem@.word(p, i) == m0.word(p, i),
                pool@.base == pool0.base,
                pool@.end == pool0.end,
                forall|p: u64| pool0.is_allocated(p) ==> pool@.is_allocated(p),
                forall|n: u64| t0.nodes().contains(n) ==> table.nodes().contains(n),
                forall|n: u64|
                    #[trigger] table.nodes().contains(n) && !t0.nodes().contains(n)
                        ==> !pool0.is_allocated(n),
                cur == start ==> pool@.available() == pool0.available(),
                cur > start ==> pool@.available() >= pool0.available() - span_frames(start, cur) - data
                    * (cur - start),
                pool0.available() >= span_frames(start, end) + data * (end - start),
            decreases end - cur,
        {
            let ghost m1 = mem@;
            let ghost pool1 = pool@;
            let ghost t1 = *table;
            let ghost a1 = *self;
            proof {
                let root = table.root();
                lemma_index_range(cur);
                if cur > start {
                    let prev = (cur - 1) as u64;
                    lemma_next_page(start, prev);
                    assert(table.mapping(m1, VirtPageNum(prev)).is_some());
                    assert(node2(root, m1, prev).is_some());
                    assert(node1(root, m1, prev).is_some());
                    if cur % 512 != 0 {
                        assert(node1(root, m1, cur) == node1(root, m1, prev));
                        assert(node2(root, m1, cur) == node2(root, m1, prev));
                    } else if cur % 0x40000 != 0 {
                        assert(node1(root, m1, cur) == node1(root, m1, prev));
                    }
                    assert(span_frames(start, (cur + 1) as u64) <= span_frames(start, end));
                    assert(data * (cur - start) + data == data * (cur + 1 - start))
                        by (nonlinear_arith);
                    assert(data * (cur + 1 - start) <= data * (end - start)) by (nonlinear_arith)
                        requires
                            cur + 1 <= end,
                            data >= 0,
                    ;
                } else {
                    assert(span_frames(start, (start + 1) as u64) == 2);
                    assert(span_frames(start, (start + 1) as u64) <= span_frames(start, end));
                    assert(data * 1 <= data * (end - start)) by (nonlinear_arith)
                        requires
                            1 <= end - start,
                            data >= 0,
                    ;
                }
            }
            self.map_one(table, VirtPageNum(cur), pool, mem);
            proof {
                assert forall|v: u64| cur + 1 <= v < end implies #[trigger] table.mapping(
                    mem@,
                    VirtPageNum(v),
                ).is_none() by {
                    assert(table.mapping(mem@, VirtPageNum(v)) == t1.mapping(m1, VirtPageNum(v)));
                }
                assert forall|v: VirtPageNum|
                    v.0 < 0x800_0000 && !(start <= v.0 < end) implies #[trigger] table.mapping(
                    mem@,
                    v,
                ) == t0.mapping(m0, v) by {
                    assert(table.mapping(mem@, v) == t1.mapping(m1, v));
                }
                assert forall|k: int| 0 <= k < self.frames().len() implies !pool0.is_allocated(
                    #[trigger] self.frames()[k],
                ) by {
                    if k < a1.frames().len() {
                        assert(self.frames().drop_last()[k] == a1.frames()[k]);
                    } else {
                        assert(self.frames()[k] == self.frames().last());
                    }
                }
                assert forall|k: int, i: int|
                    0 <= k < self.frames().len() && 0 <= i < 512 implies #[trigger] mem@.word(
                    self.frames()[k],
                    i,
                ) == 0 by {
                    if k < a1.frames().len() {
                        assert(self.frames().drop_last()[k] == a1.frames()[k]);
                        let f = a1.frames()[k];
                        assert(m1.word(f, i) == 0);
                        assert(m1.holds(f) && pool1.is_allocated(f) && !t1.nodes().contains(f));
                    } else {
                        assert(self.frames()[k] == self.frames().last());
                    }
                }
                assert forall|p: u64, i: int|
                    m0.holds(p) && pool0.is_allocated(p) && !t0.nodes().contains(p) && 0 <= i
                        < 512 implies #[trigger] mem@.word(p, i) == m0.word(p, i) by {
                    assert(m1.word(p, i) == m0.word(p, i));
                    if t1.nodes().contains(p) {
                        assert(!pool0.is_allocated(p));
                    }
                    assert(m1.holds(p));
                }
                assert forall|n: u64|
                    #[trigger] table.nodes().contains(n) && !t0.nodes().contains(n) implies !pool0.is_allocated(
                    n,
                ) by {
                    if !t1.nodes().contains(n) {
                        assert(!pool1.is_allocated(n));
                    }
                }
            }
            cur = cur + 1;
        }
        proof {
            if start < end {
                assert(data * (end - start) >= 0) by (nonlinear_arith)
                    requires
                        data >= 0,
                        end - start >= 0,
                ;
            }
            assert(a0.frames_needed() == span_frames(start, end) + data * (end - start))
                by (nonlinear_arith)
                requires
                    a0.frames_needed() == span_frames(start, end) + (if data == 1 {
                        end - start
                    } else {
                        0int
                    }),
                    data == 0 || data == 1,
            ;
        }
    }

    /// Takes the mappings of the pages of the region away, and gives the
    /// frames that the region has taken back to the pool, in the order of
    /// the pages.
    pub fn unmap(&mut self, table: &mut PageTable, pool: &mut StackFrameAllocator, mem: &mut PhysMemory)
        requires
            old(pool)@.wf(),
            old(table).wf(old(mem)@, old(pool)@),
            old(self).mapped_in(old(table), old(mem)@, old(pool)@),
        ensures
            final(pool)@.wf(),
            final(table).wf(final(mem)@, final(pool)@),
            final(table).root() == old(table).root(),
            final(table).nodes() == old(table).nodes(),
            final(self).start() == old(self).start(),
            final(self).end() == old(self).end(),
            final(self).kind() == old(self).kind(),
            final(self).perm() == old(self).perm(),
            final(self).frames().len() == 0,
            forall|v: u64|
                old(self).start() <= v < old(self).end() ==> #[trigger] final(table).mapping(
                    final(mem)@,
                    VirtPageNum(v),
                ).is_none(),
            forall|v: VirtPageNum|
                v.0 < 0x800_0000 && !(old(self).start() <= v.0 < old(self).end())
                    ==> #[trigger] final(table).mapping(final(mem)@, v) == old(table).mapping(
                    old(mem)@,
                    v,
                ),
            final(mem)@.same_but(old(mem)@, final(table).nodes()),
            final(pool)@ == (FramePool {
                recycled: old(pool)@.recycled + old(self).frames(),
                ..old(pool)@
            }),
            forall|p: u64| #[trigger]
                final(pool)@.is_allocated(p) == (old(pool)@.is_allocated(p) && !old(self).frames().contains(p)),
    {
        let ghost m0 = mem@;
        let ghost pool0 = pool@;
        let ghost t0 = *table;
        let ghost a0 = *self;
        let start = self.vpn_range.get_start().0;
        let end = self.vpn_range.get_end().0;
        let mut cur = start;
        while cur < end
            invariant
                start <= cur <= end <= 0x800_0000,
                start == a0.start(),
                end == a0.end(),
                *self == a0,
                pool@ == pool0,
                table.wf(mem@, pool0),
                table.root() == t0.root(),
                table.nodes() == t0.nodes(),
                forall|v: u64|
                    cur <= v < end ==> #[trigger] table.mapping(mem@, VirtPageNum(v)) == Some(
                        a0.entry_of(v),
                    ),
                forall|v: u64|
                    start <= v < cur ==> #[trigger] table.mapping(mem@, VirtPageNum(v)).is_none(),
                forall|v: VirtPageNum|
                    v.0 < 0x800_0000 && !(start <= v.0 < end) ==> #[trigger] table.mapping(mem@, v)
                        == t0.mapping(m0, v),
                mem@.same_but(m0, t0.nodes()),
            decreases end - cur,
        {
            let ghost m1 = mem@;
            let ghost t1 = *table;
            proof {
                assert(table.mapping(m1, VirtPageNum(cur)).is_some());
            }
            table.unmap(VirtPageNum(cur), pool, mem);
            proof {
                assert forall|v: VirtPageNum|
                    v.0 < 0x800_0000 && v.0 != cur implies #[trigger] table.mapping(mem@, v)
                    == t1.mapping(m1, v) by {
                    if same_indexes(v.0, cur) {
                        lemma_indexes_injective(v.0, cur);
                    }
                }
                assert forall|v: u64| cur + 1 <= v < end implies #[trigger] table.mapping(
                    mem@,
                    VirtPageNum(v),
                ) == Some(a0.entry_of(v)) by {
                    assert(table.mapping(mem@, VirtPageNum(v)) == t1.mapping(m1, VirtPageNum(v)));
                }
                assert forall|v: u64| start <= v < cur + 1 implies #[trigger] table.mapping(
                    mem@,
                    VirtPageNum(v),
                ).is_none() by {
                    if v != cur {
                        assert(table.mapping(mem@, VirtPageNum(v)) == t1.mapping(
                            m1,
                            VirtPageNum(v),
                        ));
                    }
                }
                assert forall|v: VirtPageNum|
                    v.0 < 0x800_0000 && !(start <= v.0 < end) implies #[trigger] table.mapping(
                    mem@,
                    v,
                ) == t0.mapping(m0, v) by {
                    assert(table.mapping(mem@, v) == t1.mapping(m1, v));
                }
                assert(mem@.same_but(m0, t0.nodes())) by {
                    assert forall|p: u64, i: int|
                        m0.holds(p) && !t0.nodes().contains(p) && 0 <= i < 512 implies #[trigger] mem@.word(
                        p,
                        i,
                    ) == m0.word(p, i) by {
                        assert(m1.word(p, i) == m0.word(p, i));
                        assert(m1.holds(p));
                    }
                }
            }
            cur = cur + 1;
        }
        let ghost m2 = mem@;
        let ghost frames = a0.frames();
        let mut k: usize = 0;
        while k < self.data_frames.len()
            invariant
                k <= self.data_frames@.len(),
                *self == a0,
                frames == a0.frames(),
                frames.no_duplicates(),
                mem@ == m2,
                m2.wf(),
                table.root() == t0.root(),
                table.nodes() == t0.nodes(),
                table.wf(m2, pool@),
                pool@.wf(),
                pool@ == (FramePool { recycled: pool0.recycled + frames.subrange(0, k as int), ..pool0 }),
                forall|j: int| 0 <= j < frames.len() ==> !table.nodes().contains(#[trigger] frames[j]),
                forall|p: u64| #[trigger]
                    pool@.is_allocated(p) == (pool0.is_allocated(p) && !frames.subrange(
                        0,
                        k as int,
                    ).contains(p)),
                forall|j: int| 0 <= j < frames.len() ==> pool0.is_allocated(#[trigger] frames[j]),
            decreases self.data_frames@.len() - k,
        {
            let ppn = self.data_frames[k].ppn;
            let ghost pool1 = pool@;
            proof {
                assert(frames[k as int] == ppn.0);
                assert(!frames.subrange(0, k as int).contains(ppn.0)) by {
                    if frames.subrange(0, k as int).contains(ppn.0) {
                        let j = choose|j: int|
                            0 <= j < k && frames.subrange(0, k as int)[j] == ppn.0;
                        assert(frames[j] == frames[k as int]);
                    }
                }
                pool1.lemma_returned(ppn.0);
            }
            frame_dealloc(pool, ppn);
            proof {
                let before = frames.subrange(0, k as int);
                let after = frames.subrange(0, k + 1);
                assert(after =~= before.push(ppn.0));
                assert(pool@.recycled =~= pool0.recycled + after);
                assert forall|p: u64| after.contains(p) <==> (before.contains(p) || p == ppn.0) by {
                    if after.contains(p) {
                        let j = choose|j: int| 0 <= j < after.len() && after[j] == p;
                        if j < k {
                            assert(before[j] == p);
                        }
                    }
                    if before.contains(p) {
                        let j = choose|j: int| 0 <= j < before.len() && before[j] == p;
                        assert(after[j] == p);
                    }
                    assert(after[k as int] == ppn.0);
                }
                assert forall|p: u64| #[trigger]
                    pool@.is_allocated(p) == (pool0.is_allocated(p) && !after.contains(p)) by {
                    assert(pool@.is_allocated(p) == (pool1.is_allocated(p) && p != ppn.0));
                    assert(pool1.is_allocated(p) == (pool0.is_allocated(p) && !before.contains(p)));
                }
                table.lemma_frame(m2, pool1, m2, pool@, Set::empty());
            }
            k += 1;
        }
        proof {
            assert(frames.subrange(0, k as int) =~= frames);
        }
        self.data_frames = Vec::new();
    }

    /// Gives the frames that the region has taken back to the pool, in the
    /// order of the pages, and leaves the mappings of the pages as they are.
    pub fn release(&mut self, table: &PageTable, pool: &mut StackFrameAllocator, mem: &PhysMemory)
        requires
            old(pool)@.wf(),
            old(self).mapped_in(table, mem@, old(pool)@),
        ensures
            final(pool)@.wf(),
            final(self).start() == old(self).start(),
            final(self).end() == old(self).end(),
            final(self).kind() == old(self).kind(),
            final(self).perm() == old(self).perm(),
            final(self).frames().len() == 0,
            final(pool)@ == (FramePool {
                recycled: old(pool)@.recycled + old(self).frames(),
                ..old(pool)@
            }),
            forall|p: u64| #[trigger]
                final(pool)@.is_allocated(p) == (old(pool)@.is_allocated(p) && !old(self).frames().contains(p)),
    {
        let ghost pool0 = pool@;
        let ghost a0 = *self;
        let ghost frames = a0.frames();
        let mut k: usize = 0;
        proof {
            assert(pool0.recycled + frames.subrange(0, 0) =~= pool0.recycled);
        }
        while k < self.data_frames.len()
            invariant
                k <= self.data_frames@.len(),
                *self == a0,
                frames == a0.frames(),
                frames.no_duplicates(),
                pool@.wf(),
                pool@ == (FramePool { recycled: pool0.recycled + frames.subrange(0, k as int), ..pool0 }),
                forall|p: u64| #[trigger]
                    pool@.is_allocated(p) == (pool0.is_allocated(p) && !frames.subrange(
                        0,
                        k as int,
                    ).contains(p)),
                forall|j: int| 0 <= j < frames.len() ==> pool0.is_allocated(#[trigger] frames[j]),
            decreases self.data_frames@.len() - k,
        {
            let ppn = self.data_frames[k].ppn;
            let ghost pool1 = pool@;
            proof {
                assert(frames[k as int] == ppn.0);
                assert(!frames.subrange(0, k as int).contains(ppn.0)) by {
                    if frames.subrange(0, k as int).contains(ppn.0) {
                        let j = choose|j: int|
                            0 <= j < k && frames.subrange(0, k as int)[j] == ppn.0;
                        assert(frames[j] == frames[k as int]);
                    }
                }
                pool1.lemma_returned(ppn.0);
            }
            frame_dealloc(pool, ppn);
            proof {
                let before = frames.subrange(0, k as int);
                let after = frames.subrange(0, k + 1);
                assert(after =~= before.push(ppn.0));
                assert(pool@.recycled =~= pool0.recycled + after);
                assert forall|p: u64| after.contains(p) <==> (before.contains(p) || p == ppn.0) by {
                    if after.contains(p) {
                        let j = choose|j: int| 0 <= j < after.len() && after[j] == p;
                        if j < k {
                            assert(before[j] == p);
                        }
                    }
                    if before.contains(p) {
                        let j = choose|j: int| 0 <= j < before.len() && before[j] == p;
                        assert(after[j] == p);
                    }
                    assert(after[k as int] == ppn.0);
                }
                assert forall|p: u64| #[trigger]
                    pool@.is_allocated(p) == (pool0.is_allocated(p) && !after.contains(p)) by {
                    assert(pool@.is_allocated(p) == (pool1.is_allocated(p) && p != ppn.0));
                    assert(pool1.is_allocated(p) == (pool0.is_allocated(p) && !before.contains(p)));
                }
            }
            k += 1;
        }
        proof {
            assert(frames.subrange(0, k as int) =~= frames);
        }
        self.data_frames = Vec::new();
    }

    /// Copies `data` into the frames of the region, from its first page on.
    pub fn copy_data(&self, table: &PageTable, pool: &StackFrameAllocator, mem: &mut PhysMemory, data: &[u8])
        requires
            pool@.wf(),
            table.wf(old(mem)@, pool@),
            self.kind() == MapType::Framed,
            self.mapped_in(table, old(mem)@, pool@),
            self.start() < self.end(),
            data@.len() <= (self.end() - self.start()) * 4096,
        ensures
            table.wf(final(mem)@, pool@),
            self.mapped_in(table, final(mem)@, pool@),
            forall|v: VirtPageNum| #[trigger]
                table.mapping(final(mem)@, v) == table.mapping(old(mem)@, v),
            final(mem)@.same_but(old(mem)@, self.frames().to_set()),
            forall|k: int, i: int|
                0 <= k < self.frames().len() && 0 <= i < 4096 ==> #[trigger] final(mem)@.byte(
                    self.frames()[k],
                    i,
                ) == (if k * 4096 + i < data@.len() {
                    data@[k * 4096 + i]
                } else {
                    old(mem)@.byte(self.frames()[k], i)
                }),
    {
        let ghost m0 = mem@;
        let ghost frames = self.frames();
        let first = self.vpn_range.get_start().0;
        let len = data.len();
        let mut start: usize = 0;
        let mut page: u64 = 0;
        loop
            invariant_except_break
                start == page * 4096,
                start <= len,
                page < self.end() - self.start(),
                forall|k: int, i: int|
                    0 <= k < frames.len() && 0 <= i < 4096 ==> #[trigger] mem@.byte(frames[k], i)
                        == (if k < page && k * 4096 + i < len {
                        data@[k * 4096 + i]
                    } else {
                        m0.byte(frames[k], i)
                    }),
            invariant
                pool@.wf(),
                frames == self.frames(),
                first == self.start(),
                len == data@.len(),
                len <= (self.end() - self.start()) * 4096,
                self.kind() == MapType::Framed,
                table.wf(mem@, pool@),
                self.mapped_in(table, mem@, pool@),
                forall|v: VirtPageNum| #[trigger] table.mapping(mem@, v) == table.mapping(m0, v),
                mem@.same_but(m0, frames.to_set()),
            ensures
                forall|k: int, i: int|
                    0 <= k < frames.len() && 0 <= i < 4096 ==> #[trigger] mem@.byte(frames[k], i)
                        == (if k * 4096 + i < len {
                        data@[k * 4096 + i]
                    } else {
                        m0.byte(frames[k], i)
                    }),
            decreases len - start,
        {
            let ghost m1 = mem@;
            let remaining = len - start;
            let count = if remaining < 4096 { remaining } else { 4096 };
            let vpn = VirtPageNum(first + page);
            proof {
                assert(table.mapping(m1, vpn) == Some(self.entry_of(vpn.0)));
                assert(frames[page as int] == self.frame_of(vpn.0));
                assert(pool@.is_allocated(frames[page as int]));
                lemma_pte_bits(frames[page as int], self.perm().bits | 0x01);
            }
            let pte = table.translate(vpn, mem).unwrap();
            let ppn = pte.ppn();
            copy_page(mem, ppn, data, start, count);
            proof {
                let m2 = mem@;
                let f = frames[page as int];
                assert(ppn.0 == f);
                table.lemma_frame(m1, pool@, m2, pool@, set![f]);
                assert forall|v: VirtPageNum| #[trigger] table.mapping(m2, v) == table.mapping(
                    m0,
                    v,
                ) by {
                    assert(table.mapping(m2, v) == table.mapping(m1, v));
                }
                assert forall|p: u64| #[trigger] m2.holds(p) == m1.holds(p) by {}
                assert(frames.to_set().contains(f)) by {
                    assert(frames.contains(f));
                }
                assert(m2.same_but(m0, frames.to_set())) by {
                    assert forall|p: u64, i: int|
                        m0.holds(p) && !frames.to_set().contains(p) && 0 <= i
                            < 512 implies #[trigger] m2.word(p, i) == m0.word(p, i) by {
                        assert(m1.word(p, i) == m0.word(p, i));
                        assert(m1.holds(p));
                    }
                }
                assert forall|k: int, i: int|
                    0 <= k < frames.len() && 0 <= i < 4096 implies #[trigger] m2.byte(frames[k], i)
                    == (if k < page + 1 && k * 4096 + i < len {
                    data@[k * 4096 + i]
                } else {
                    m0.byte(frames[k], i)
                }) by {
                    if k != page {
                        assert(frames[k] != f);
                        assert(m1.holds(frames[k]));
                        assert(m2.word(frames[k], i / 8) == m1.word(frames[k], i / 8));
                        assert(m1.byte(frames[k], i) == (if k < page && k * 4096 + i < len {
                            data@[k * 4096 + i]
                        } else {
                            m0.byte(frames[k], i)
                        }));
                    } else {
                        assert(m1.byte(f, i) == m0.byte(f, i));
                    }
                }
            }
            if count < 4096 || start + count == len {
                proof {
                    assert forall|k: int, i: int|
                        0 <= k < frames.len() && 0 <= i < 4096 implies #[trigger] mem@.byte(
                        frames[k],
                        i,
                    ) == (if k * 4096 + i < len {
                        data@[k * 4096 + i]
                    } else {
                        m0.byte(frames[k], i)
                    }) by {
                        if k > page {
                            assert(k * 4096 + i >= len);
                        }
                    }
                }
                break ;
            }
            start = start + 4096;
            page = page + 1;
        }
    }

    /// Number of frames that mapping the region takes at most.
    pub fn frame_count(&self) -> (n: u64)
        requires
            self.inv(),
        ensures
            n == self.frames_needed(),
    {
        let start = self.vpn_range.get_start().0;
        let end = self.vpn_range.get_end().0;
        let span = span_frame_count(start, end);
        match self.map_type {
            MapType::Identical => span,
            MapType::Framed => span + (end - start),
        }
    }

    /// Number of the first page.
    pub fn start_vpn(&self) -> (vpn: VirtPageNum)
        ensures
            vpn.0 == self.start(),
    {
        self.vpn_range.get_start()
    }

    /// Number of the page that the region ends before.
    pub fn end_vpn(&self) -> (vpn: VirtPageNum)
        ensures
            vpn.0 == self.end(),
    {
        self.vpn_range.get_end()
    }

    /// How the pages get their frames.
    pub fn map_type(&self) -> (kind: MapType)
        ensures
            kind == self.kind(),
    {
        self.map_type
    }

    /// What may be done with the pages.
    pub fn map_perm(&self) -> (perm: MapPermission)
        ensures
            perm == self.perm(),
    {
        self.map_perm
    }
}

} // verus!
