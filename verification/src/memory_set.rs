//! An address space: a page table and the regions that are mapped in it.
//! The trampoline page is mapped at the top of every address space, outside
//! the regions.

use vstd::prelude::*;
use crate::address::{PhysAddr, PhysPageNum, VirtAddr, VirtPageNum};
use crate::config::{
    MEMORY_END, PAGE_BYTES, SERIAL_PORT_BASE_ADDRESS, SERIAL_PORT_MAP_SIZE, TRAMPOLINE, TRAP_CONTEXT,
    USER_STACK_SIZE,
};
use vstd::slice::slice_subrange;
use crate::elf::{
    covered, last_end, lemma_segments_frames, loads, segments_frames, ElfImage, ProgramHeader,
};
use crate::frame_allocator::{frame_dealloc, FramePool, StackFrameAllocator};
use crate::map_area::{
    lemma_indexes_injective, span_frame_count, span_frames, MapArea, MapPermission, MapType,
};
use crate::page_table::{
    lemma_pte_bits, pool_in_memory, pte_bits, pte_valid, same_indexes, PTEFlags, PageTable,
    PageTableEntry,
};
use crate::phys_memory::{FrameModel, PhysMemory};

verus! {

/// Number of the trampoline page: the last page of the address space.
pub const TRAMPOLINE_VPN: u64 = 0x7ff_ffff;

/// Two regions have no page and no frame in common.
pub open spec fn areas_apart(a: MapArea, b: MapArea) -> bool {
    &&& (a.start() == a.end() || b.start() == b.end() || a.end() <= b.start() || b.end()
        <= a.start())
    &&& forall|k: int, l: int|
        0 <= k < a.frames().len() && 0 <= l < b.frames().len() ==> #[trigger] a.frames()[k]
            != #[trigger] b.frames()[l]
}

/// Where the sections of the kernel image stand in the physical memory, and
/// the frame of the trampoline code.
pub struct KernelLayout {
    pub stext: u64,
    pub etext: u64,
    pub srodata: u64,
    pub erodata: u64,
    pub sdata: u64,
    pub edata: u64,
    pub sbss_with_stack: u64,
    pub ebss: u64,
    pub ekernel: u64,
    pub strampoline: u64,
}

/// Number of the first page at or above the address `a`.
pub open spec fn page_up(a: u64) -> u64 {
    ((a + 4095) / 4096) as u64
}

/// Number of the page that holds the address `a`.
pub open spec fn page_down(a: u64) -> u64 {
    a / 4096
}

impl KernelLayout {
    /// The sections follow one another, each on pages of its own, above the
    /// serial port and within the physical memory; the trampoline code
    /// starts at a page.
    pub open spec fn wf(&self) -> bool {
        &&& 0x1000_1000 <= self.stext <= self.etext
        &&& page_up(self.etext) <= page_down(self.srodata)
        &&& self.srodata <= self.erodata
        &&& page_up(self.erodata) <= page_down(self.sdata)
        &&& self.sdata <= self.edata
        &&& page_up(self.edata) <= page_down(self.sbss_with_stack)
        &&& self.sbss_with_stack <= self.ebss
        &&& page_up(self.ebss) <= page_down(self.ekernel)
        &&& self.ekernel <= MEMORY_END
        &&& self.strampoline % 4096 == 0
        &&& self.strampoline <= 0x00ff_ffff_ffff_ffff
    }

    /// Number of frames that the page table of the kernel takes at most.
    pub open spec fn frames_needed(&self) -> int {
        3 + span_frames(page_down(self.stext), page_up(self.etext)) + span_frames(
            page_down(self.srodata),
            page_up(self.erodata),
        ) + span_frames(page_down(self.sdata), page_up(self.edata)) + span_frames(
            page_down(self.sbss_with_stack),
            page_up(self.ebss),
        ) + span_frames(page_down(self.ekernel), page_up(MEMORY_END)) + span_frames(
            page_down(SERIAL_PORT_BASE_ADDRESS),
            page_up((SERIAL_PORT_BASE_ADDRESS + SERIAL_PORT_MAP_SIZE) as u64),
        )
    }
}

impl KernelLayout {
    /// Whether the sections follow one another, each on pages of its own.
    pub fn check(&self) -> (b: bool)
        ensures
            b == self.wf(),
    {
        0x1000_1000 <= self.stext && self.stext <= self.etext && self.etext <= MEMORY_END && (
        self.etext + 4095) / 4096 <= self.srodata / 4096 && self.srodata <= self.erodata
            && self.erodata <= MEMORY_END && (self.erodata + 4095) / 4096 <= self.sdata / 4096
            && self.sdata <= self.edata && self.edata <= MEMORY_END && (self.edata + 4095) / 4096
            <= self.sbss_with_stack / 4096 && self.sbss_with_stack <= self.ebss && self.ebss
            <= MEMORY_END && (self.ebss + 4095) / 4096 <= self.ekernel / 4096 && self.ekernel
            <= MEMORY_END && self.strampoline % 4096 == 0 && self.strampoline
            <= 0x00ff_ffff_ffff_ffff
    }

    /// Number of frames that the page table of the kernel takes at most.
    pub fn frame_count(&self) -> (n: u64)
        requires
            self.wf(),
        ensures
            n == self.frames_needed(),
    {
        3 + span_frame_count(self.stext / 4096, (self.etext + 4095) / 4096) + span_frame_count(
            self.srodata / 4096,
            (self.erodata + 4095) / 4096,
        ) + span_frame_count(self.sdata / 4096, (self.edata + 4095) / 4096) + span_frame_count(
            self.sbss_with_stack / 4096,
            (self.ebss + 4095) / 4096,
        ) + span_frame_count(self.ekernel / 4096, (MEMORY_END + 4095) / 4096) + span_frame_count(
            SERIAL_PORT_BASE_ADDRESS / 4096,
            (SERIAL_PORT_BASE_ADDRESS + SERIAL_PORT_MAP_SIZE + 4095) / 4096,
        )
    }
}

/// An address space.
pub struct MemorySet {
    page_table: PageTable,
    map_areas: Vec<MapArea>,
}

impl MemorySet {
    /// The page table.
    pub closed spec fn table(&self) -> PageTable {
        self.page_table
    }

    /// The regions, in the order in which they were mapped.
    pub closed spec fn areas(&self) -> Seq<MapArea> {
        self.map_areas@
    }

    /// The address space is sound: the page table is a tree, each region is
    /// mapped by it, and no two regions share a page or a frame.
    #[verifier::opaque]
    pub open spec fn wf(&self, m: FrameModel, pool: FramePool) -> bool {
        &&& pool.wf()
        &&& pool_in_memory(pool, m)
        &&& self.table().wf(m, pool)
        &&& forall|i: int|
            0 <= i < self.areas().len() ==> (#[trigger] self.areas()[i]).mapped_in(
                &self.table(),
                m,
                pool,
            )
        &&& forall|i: int, j: int|
            0 <= i < self.areas().len() && 0 <= j < self.areas().len() && i != j ==> areas_apart(
                #[trigger] self.areas()[i],
                #[trigger] self.areas()[j],
            )
    }

    /// The page `vpn` is mapped by no region and by nothing else.
    pub open spec fn is_free(&self, m: FrameModel, vpn: u64) -> bool {
        self.table().mapping(m, VirtPageNum(vpn)).is_none()
    }

    /// An address space without regions, whose page table takes its root
    /// from the pool.
    pub fn new(pool: &mut StackFrameAllocator, mem: &mut PhysMemory) -> (set: MemorySet)
        requires
            old(pool)@.wf(),
            old(mem)@.wf(),
            pool_in_memory(old(pool)@, old(mem)@),
            old(pool)@.available() > 0,
        ensures
            set.wf(final(mem)@, final(pool)@),
            set.areas().len() == 0,
            set.table().root() == old(pool)@.upcoming(),
            set.table().nodes() == set![set.table().root()],
            final(pool)@ == old(pool)@.issued(),
            final(mem)@.same_but(old(mem)@, set![set.table().root()]),
            forall|v: u64| #[trigger] set.is_free(final(mem)@, v),
            forall|v: VirtPageNum| #[trigger] set.table().missing_levels(final(mem)@, v) == 2,
    {
        let page_table = PageTable::new(pool, mem);
        let set = Self { page_table, map_areas: Vec::new() };
        proof {
            reveal(MemorySet::wf);
            old(pool)@.lemma_issued();
            assert forall|p: u64| #[trigger] mem@.holds(p) == old(mem)@.holds(p) by {}
            assert forall|v: u64| #[trigger] set.is_free(mem@, v) by {
                assert(set.table().walk(mem@, VirtPageNum(v)).is_none());
            }
        }
        set
    }

    /// The token of the address space.
    pub fn satp(&self) -> (satp: u64)
        ensures
            satp == (8u64 << 60) | self.table().root(),
    {
        self.page_table.to_satp()
    }

    /// Maps the region `map_area`, which joins the regions of the address
    /// space, and copies `data`, if there is any, into its frames.
    pub fn push(
        &mut self,
        map_area: MapArea,
        data: Option<&[u8]>,
        pool: &mut StackFrameAllocator,
        mem: &mut PhysMemory,
    )
        requires
            old(self).wf(old(mem)@, old(pool)@),
            map_area.inv(),
            map_area.frames().len() == 0,
            forall|v: u64|
                map_area.start() <= v < map_area.end() ==> #[trigger] old(self).is_free(
                    old(mem)@,
                    v,
                ),
            old(pool)@.available() >= map_area.frames_needed(),
            data.is_some() ==> map_area.kind() == MapType::Framed && map_area.start()
                < map_area.end() && data.unwrap()@.len() <= (map_area.end() - map_area.start())
                * 4096,
        ensures
            final(self).wf(final(mem)@, final(pool)@),
            final(self).table().root() == old(self).table().root(),
            final(self).areas().len() == old(self).areas().len() + 1,
            forall|i: int|
                0 <= i < old(self).areas().len() ==> #[trigger] final(self).areas()[i] == old(self).areas()[i],
            ({
                let area = final(self).areas().last();
                &&& area.start() == map_area.start()
                &&& area.end() == map_area.end()
                &&& area.kind() == map_area.kind()
                &&& area.perm() == map_area.perm()
                &&& forall|k: int|
                    0 <= k < area.frames().len() ==> !old(pool)@.is_allocated(
                        #[trigger] area.frames()[k],
                    )
                &&& forall|k: int, i: int|
                    0 <= k < area.frames().len() && 0 <= i < 4096 ==> #[trigger] final(mem)@.byte(
                        area.frames()[k],
                        i,
                    ) == (if data.is_some() && k * 4096 + i < data.unwrap()@.len() {
                        data.unwrap()@[k * 4096 + i]
                    } else {
                        0u8
                    })
            }),
            forall|v: VirtPageNum|
                v.0 < 0x800_0000 && !(map_area.start() <= v.0 < map_area.end())
                    ==> #[trigger] final(self).table().mapping(final(mem)@, v) == old(self).table().mapping(old(mem)@, v),
            final(mem)@.base == old(mem)@.base,
            final(mem)@.words.len() == old(mem)@.words.len(),
            forall|p: u64, i: int|
                old(mem)@.holds(p) && old(pool)@.is_allocated(p) && !old(self).table().nodes().contains(p) && 0 <= i < 512 ==> #[trigger] final(mem)@.word(p, i)
                    == old(mem)@.word(p, i),
            final(pool)@.available() >= old(pool)@.available() - map_area.frames_needed(),
            final(pool)@.base == old(pool)@.base,
            final(pool)@.end == old(pool)@.end,
            forall|p: u64| old(pool)@.is_allocated(p) ==> final(pool)@.is_allocated(p),
            forall|n: u64|
                old(self).table().nodes().contains(n) ==> final(self).table().nodes().contains(n),
            forall|n: u64|
                #[trigger] final(self).table().nodes().contains(n) && !old(self).table().nodes().contains(n) ==> !old(pool)@.is_allocated(n),
    {
        let ghost m0 = mem@;
        let ghost pool0 = pool@;
        let ghost s0 = *self;
        let mut map_area = map_area;
        let ghost a0 = map_area;
        proof {
            reveal(MemorySet::wf);
            assert forall|v: u64| a0.start() <= v < a0.end() implies #[trigger] s0.table().mapping(
                m0,
                VirtPageNum(v),
            ).is_none() by {
                assert(s0.is_free(m0, v));
            }
        }
        map_area.map(&mut self.page_table, pool, mem);
        let ghost m1 = mem@;
        proof {
            assert forall|k: int, i: int|
                0 <= k < map_area.frames().len() && 0 <= i < 4096 implies #[trigger] m1.byte(
                map_area.frames()[k],
                i,
            ) == 0 by {
                assert(m1.word(map_area.frames()[k], i / 8) == 0);
                crate::phys_memory::lemma_with_byte(0, 0, 0, (i % 8) as u64);
            }
        }
        match data {
            Some(data) => {
                map_area.copy_data(&self.page_table, pool, mem, data);
            },
            None => {},
        }
        proof {
            let m2 = mem@;
            let pool2 = pool@;
            let t2 = self.table();
            assert forall|p: u64| #[trigger] m2.holds(p) == m0.holds(p) by {}
            assert forall|v: VirtPageNum|
                v.0 < 0x800_0000 && !(a0.start() <= v.0 < a0.end()) implies #[trigger] t2.mapping(
                m2,
                v,
            ) == s0.table().mapping(m0, v) by {
                assert(t2.mapping(m2, v) == t2.mapping(m1, v));
            }
            assert forall|p: u64, i: int|
                m0.holds(p) && pool0.is_allocated(p) && !s0.table().nodes().contains(p) && 0 <= i
                    < 512 implies #[trigger] m2.word(p, i) == m0.word(p, i) by {
                assert(m1.word(p, i) == m0.word(p, i));
                if map_area.frames().to_set().contains(p) {
                    let k = choose|k: int|
                        0 <= k < map_area.frames().len() && map_area.frames()[k] == p;
                    assert(!pool0.is_allocated(map_area.frames()[k]));
                }
                assert(m1.holds(p));
            }
            assert forall|i: int| 0 <= i < s0.areas().len() implies (#[trigger] s0.areas()[i]).mapped_in(
                &t2,
                m2,
                pool2,
            ) && areas_apart(s0.areas()[i], map_area) && areas_apart(map_area, s0.areas()[i]) by {
                let b = s0.areas()[i];
                assert(b.mapped_in(&s0.table(), m0, pool0));
                assert forall|v: u64| b.start() <= v < b.end() implies #[trigger] t2.mapping(
                    m2,
                    VirtPageNum(v),
                ) == Some(b.entry_of(v)) by {
                    assert(s0.table().mapping(m0, VirtPageNum(v)) == Some(b.entry_of(v)));
                    if a0.start() <= v < a0.end() {
                        assert(s0.is_free(m0, v));
                    }
                }
                assert forall|k: int| 0 <= k < b.frames().len() implies {
                    let f = #[trigger] b.frames()[k];
                    &&& pool2.is_allocated(f)
                    &&& m2.holds(f)
                    &&& !t2.nodes().contains(f)
                } by {
                    let f = b.frames()[k];
                    assert(pool0.is_allocated(f));
                }
                if b.start() < b.end() && a0.start() < a0.end() {
                    if !(a0.end() <= b.start() || b.end() <= a0.start()) {
                        let v = if a0.start() <= b.start() { b.start() } else { a0.start() };
                        assert(s0.table().mapping(m0, VirtPageNum(v)) == Some(b.entry_of(v)));
                        assert(s0.is_free(m0, v));
                    }
                }
                assert forall|k: int, l: int|
                    0 <= k < b.frames().len() && 0 <= l < map_area.frames().len() implies #[trigger] b.frames()[k]
                    != #[trigger] map_area.frames()[l] by {
                    assert(pool0.is_allocated(b.frames()[k]));
                    assert(!pool0.is_allocated(map_area.frames()[l]));
                }
            }
        }
        self.map_areas.push(map_area);
        proof {
            let areas = self.areas();
            let n = s0.areas().len() as int;
            assert forall|i: int| 0 <= i < areas.len() implies (#[trigger] areas[i]).mapped_in(
                &self.table(),
                mem@,
                pool@,
            ) by {
                if i < n {
                    assert(areas[i] == s0.areas()[i]);
                }
            }
            assert forall|i: int, j: int|
                0 <= i < areas.len() && 0 <= j < areas.len() && i != j implies areas_apart(
                #[trigger] areas[i],
                #[trigger] areas[j],
            ) by {
                if i < n && j < n {
                    assert(areas[i] == s0.areas()[i] && areas[j] == s0.areas()[j]);
                    assert(areas_apart(s0.areas()[i], s0.areas()[j]));
                } else if i < n {
                    assert(areas[i] == s0.areas()[i]);
                } else {
                    assert(areas[j] == s0.areas()[j]);
                }
            }
        }
    }

    /// Maps a region of frames of its own that holds the addresses from
    /// `start_va` up to `end_va`.
    pub fn insert_framed_areas(
        &mut self,
        start_va: VirtAddr,
        end_va: VirtAddr,
        permission: MapPermission,
        pool: &mut StackFrameAllocator,
        mem: &mut PhysMemory,
    )
        requires
            old(self).wf(old(mem)@, old(pool)@),
            start_va.0 <= end_va.0 <= 0x7f_ffff_ffff,
            forall|v: u64|
                start_va.0 / 4096 <= v < (end_va.0 + 4095) / 4096 ==> #[trigger] old(self).is_free(
                    old(mem)@,
                    v,
                ),
            old(pool)@.available() >= span_frames(
                (start_va.0 / 4096) as u64,
                ((end_va.0 + 4095) / 4096) as u64,
            ) + ((end_va.0 + 4095) / 4096 - start_va.0 / 4096),
        ensures
            final(self).wf(final(mem)@, final(pool)@),
            final(self).table().root() == old(self).table().root(),
            final(self).areas().len() == old(self).areas().len() + 1,
            forall|i: int|
                0 <= i < old(self).areas().len() ==> #[trigger] final(self).areas()[i] == old(self).areas()[i],
            ({
                let area = final(self).areas().last();
                &&& area.start() == start_va.0 / 4096
                &&& area.end() == (end_va.0 + 4095) / 4096
                &&& area.kind() == MapType::Framed
                &&& area.perm() == permission
                &&& forall|k: int, i: int|
                    0 <= k < area.frames().len() && 0 <= i < 4096 ==> #[trigger] final(mem)@.byte(
                        area.frames()[k],
                        i,
                    ) == 0u8
            }),
            forall|v: VirtPageNum|
                v.0 < 0x800_0000 && !(start_va.0 / 4096 <= v.0 < (end_va.0 + 4095) / 4096)
                    ==> #[trigger] final(self).table().mapping(final(mem)@, v) == old(self).table().mapping(old(mem)@, v),
            final(pool)@.base == old(pool)@.base,
            final(pool)@.end == old(pool)@.end,
            forall|p: u64| old(pool)@.is_allocated(p) ==> final(pool)@.is_allocated(p),
    {
        self.push(MapArea::new(start_va, end_va, MapType::Framed, permission), None, pool, mem);
    }

    /// Below the trampoline no page is mapped but those from `lo` up to
    /// `hi`.
    pub open spec fn free_outside(&self, m: FrameModel, lo: u64, hi: u64) -> bool {
        forall|v: u64| v < TRAMPOLINE_VPN && !(lo <= v < hi) ==> #[trigger] self.is_free(m, v)
    }

    /// Maps the pages that hold the addresses from `start` up to `end`,
    /// each to the frame of its own number, with the permission `perm`. The
    /// pages lie above those, from `lo` up to `hi`, that are mapped already.
    fn push_identical(
        &mut self,
        start: u64,
        end: u64,
        perm: u8,
        pool: &mut StackFrameAllocator,
        mem: &mut PhysMemory,
        Ghost(lo): Ghost<u64>,
        Ghost(hi): Ghost<u64>,
    )
        requires
            old(self).wf(old(mem)@, old(pool)@),
            start <= end <= 0x7f_ffff_ffff,
            old(self).free_outside(old(mem)@, lo, hi),
            lo <= hi,
            hi <= page_down(start) || page_up(end) <= lo,
            page_up(end) <= TRAMPOLINE_VPN,
            old(pool)@.available() >= span_frames(page_down(start), page_up(end)),
        ensures
            final(self).wf(final(mem)@, final(pool)@),
            final(self).table().root() == old(self).table().root(),
            final(self).areas() == old(self).areas().push(final(self).areas().last()),
            final(self).kernel_area(old(self).areas().len() as int, start, end, perm),
            hi <= page_down(start) ==> final(self).free_outside(final(mem)@, lo, page_up(end)),
            page_up(end) <= lo ==> final(self).free_outside(final(mem)@, page_down(start), hi),
            final(self).table().mapping(final(mem)@, VirtPageNum(TRAMPOLINE_VPN)) == old(self).table().mapping(old(mem)@, VirtPageNum(TRAMPOLINE_VPN)),
            final(pool)@.available() >= old(pool)@.available() - span_frames(
                page_down(start),
                page_up(end),
            ),
            final(pool)@.base == old(pool)@.base,
            final(pool)@.end == old(pool)@.end,
    {
        let ghost s0 = *self;
        let ghost m0 = mem@;
        proof {
            crate::address::lemma_masks(start);
            crate::address::lemma_masks(end);
            vstd::arithmetic::div_mod::lemma_small_mod(start as nat, 0x80_0000_0000);
            vstd::arithmetic::div_mod::lemma_small_mod(end as nat, 0x80_0000_0000);
        }
        let area = MapArea::new(
            VirtAddr::from(start),
            VirtAddr::from(end),
            MapType::Identical,
            MapPermission { bits: perm },
        );
        let ghost ps = page_down(start);
        let ghost pe = page_up(end);
        proof {
            assert(area.start() == ps && area.end() == pe);
            assert forall|v: u64| ps <= v < pe implies #[trigger] s0.is_free(m0, v) by {}
            assert(span_frames(ps, pe) == area.frames_needed());
        }
        self.push(area, None, pool, mem);
        proof {
            assert(self.areas() =~= s0.areas().push(self.areas().last()));
            assert forall|v: u64| v <= TRAMPOLINE_VPN && !(ps <= v < pe) implies #[trigger] self.is_free(
                mem@,
                v,
            ) == s0.is_free(m0, v) by {
                assert(self.table().mapping(mem@, VirtPageNum(v)) == s0.table().mapping(
                    m0,
                    VirtPageNum(v),
                ));
            }
            if hi <= ps {
                assert(self.free_outside(mem@, lo, pe)) by {
                    assert forall|v: u64| v < TRAMPOLINE_VPN && !(lo <= v < pe) implies #[trigger] self.is_free(
                        mem@,
                        v,
                    ) by {
                        assert(s0.is_free(m0, v));
                    }
                }
            }
            if pe <= lo {
                assert(self.free_outside(mem@, ps, hi)) by {
                    assert forall|v: u64| v < TRAMPOLINE_VPN && !(ps <= v < hi) implies #[trigger] self.is_free(
                        mem@,
                        v,
                    ) by {
                        assert(s0.is_free(m0, v));
                    }
                }
            }
        }
    }

    /// The address space of the kernel: the trampoline, and the sections of
    /// the kernel image, the rest of the physical memory and the registers
    /// of the serial port, each mapped to the frames of the same numbers.
    pub fn init_kernel(layout: &KernelLayout, pool: &mut StackFrameAllocator, mem: &mut PhysMemory) -> (set: MemorySet)
        requires
            old(pool)@.wf(),
            old(mem)@.wf(),
            pool_in_memory(old(pool)@, old(mem)@),
            layout.wf(),
            old(pool)@.available() >= layout.frames_needed(),
        ensures
            set.wf(final(mem)@, final(pool)@),
            set.table().root() == old(pool)@.upcoming(),
            set.areas().len() == 6,
            set.kernel_area(0, layout.stext, layout.etext, 0x0a),
            set.kernel_area(1, layout.srodata, layout.erodata, 0x02),
            set.kernel_area(2, layout.sdata, layout.edata, 0x06),
            set.kernel_area(3, layout.sbss_with_stack, layout.ebss, 0x06),
            set.kernel_area(4, layout.ekernel, MEMORY_END, 0x06),
            set.kernel_area(
                5,
                SERIAL_PORT_BASE_ADDRESS,
                (SERIAL_PORT_BASE_ADDRESS + SERIAL_PORT_MAP_SIZE) as u64,
                0x06,
            ),
            set.table().mapping(final(mem)@, VirtPageNum(TRAMPOLINE_VPN)) == Some(
                PageTableEntry { bits: pte_bits((layout.strampoline / 4096) as u64, 0x0b) },
            ),
            final(pool)@.available() >= old(pool)@.available() - layout.frames_needed(),
            final(pool)@.base == old(pool)@.base,
            final(pool)@.end == old(pool)@.end,
    {
        let mut memory_set = Self::new(pool, mem);
        let ghost s1 = memory_set;
        let ghost m1 = mem@;
        proof {
            old(pool)@.lemma_issued();
        }
        // map trampoline
        memory_set.map_trampoline(layout.strampoline, pool, mem);
        let ghost first = page_down(layout.stext);
        proof {
            assert(0x02u8 | 0x08u8 == 0x0au8 && 0x02u8 | 0x04u8 == 0x06u8) by (bit_vector);
            assert(memory_set.free_outside(mem@, first, first)) by {
                assert forall|v: u64| v < TRAMPOLINE_VPN implies #[trigger] memory_set.is_free(
                    mem@,
                    v,
                ) by {
                    assert(s1.is_free(m1, v));
                    assert(memory_set.table().mapping(mem@, VirtPageNum(v)) == s1.table().mapping(
                        m1,
                        VirtPageNum(v),
                    ));
                }
            }
        }
        // map kernel sections
        memory_set.push_identical(
            layout.stext,
            layout.etext,
            MapPermission::R | MapPermission::X,
            pool,
            mem,
            Ghost(first),
            Ghost(first),
        );
        let ghost a0 = memory_set.areas()[0];
        memory_set.push_identical(
            layout.srodata,
            layout.erodata,
            MapPermission::R,
            pool,
            mem,
            Ghost(first),
            Ghost(page_up(layout.etext)),
        );
        let ghost a1 = memory_set.areas()[1];
        assert(memory_set.areas()[0] == a0);
        memory_set.push_identical(
            layout.sdata,
            layout.edata,
            MapPermission::R | MapPermission::W,
            pool,
            mem,
            Ghost(first),
            Ghost(page_up(layout.erodata)),
        );
        let ghost a2 = memory_set.areas()[2];
        assert(memory_set.areas()[0] == a0 && memory_set.areas()[1] == a1);
        memory_set.push_identical(
            layout.sbss_with_stack,
            layout.ebss,
            MapPermission::R | MapPermission::W,
            pool,
            mem,
            Ghost(first),
            Ghost(page_up(layout.edata)),
        );
        let ghost a3 = memory_set.areas()[3];
        assert(memory_set.areas()[0] == a0 && memory_set.areas()[1] == a1 && memory_set.areas()[2]
            == a2);
        memory_set.push_identical(
            layout.ekernel,
            MEMORY_END,
            MapPermission::R | MapPermission::W,
            pool,
            mem,
            Ghost(first),
            Ghost(page_up(layout.ebss)),
        );
        let ghost a4 = memory_set.areas()[4];
        assert(memory_set.areas()[0] == a0 && memory_set.areas()[1] == a1 && memory_set.areas()[2]
            == a2 && memory_set.areas()[3] == a3);
        memory_set.push_identical(
            SERIAL_PORT_BASE_ADDRESS,
            SERIAL_PORT_BASE_ADDRESS + SERIAL_PORT_MAP_SIZE,
            MapPermission::R | MapPermission::W,
            pool,
            mem,
            Ghost(first),
            Ghost(page_up(MEMORY_END)),
        );
        assert(memory_set.areas()[0] == a0 && memory_set.areas()[1] == a1 && memory_set.areas()[2]
            == a2 && memory_set.areas()[3] == a3 && memory_set.areas()[4] == a4);
        memory_set
    }

    /// Below the trampoline no page is mapped but those of the first `n`
    /// segments.
    pub open spec fn free_but(&self, m: FrameModel, headers: Seq<ProgramHeader>, n: int) -> bool {
        forall|v: u64| v < TRAMPOLINE_VPN && !covered(headers, n, v) ==> #[trigger] self.is_free(m, v)
    }

    /// Below the trampoline no page is mapped but those of the segments and
    /// those from `lo` up to `hi`.
    pub open spec fn free_above(
        &self,
        m: FrameModel,
        headers: Seq<ProgramHeader>,
        lo: u64,
        hi: u64,
    ) -> bool {
        forall|v: u64|
            v < TRAMPOLINE_VPN && !covered(headers, headers.len() as int, v) && !(lo <= v < hi)
                ==> #[trigger] self.is_free(m, v)
    }

    /// Maps the pages from `start` up to `end`, each to a frame of its own,
    /// with the permission `perm`. The pages are no pages of a segment and
    /// lie above those, from `lo` up to `hi`, that are mapped beside the
    /// segments.
    fn push_user(
        &mut self,
        start: VirtAddr,
        end: VirtAddr,
        perm: u8,
        pool: &mut StackFrameAllocator,
        mem: &mut PhysMemory,
        Ghost(headers): Ghost<Seq<ProgramHeader>>,
        Ghost(lo): Ghost<u64>,
        Ghost(hi): Ghost<u64>,
    )
        requires
            old(self).wf(old(mem)@, old(pool)@),
            start.0 <= end.0 <= 0x7f_ffff_ffff,
            start.0 % 4096 == 0,
            end.0 % 4096 == 0,
            old(self).free_above(old(mem)@, headers, lo, hi),
            lo <= hi <= start.0 / 4096,
            end.0 / 4096 <= TRAMPOLINE_VPN,
            forall|v: u64|
                start.0 / 4096 <= v < end.0 / 4096 ==> !covered(headers, headers.len() as int, v),
            old(pool)@.available() >= span_frames((start.0 / 4096) as u64, (end.0 / 4096) as u64)
                + (end.0 / 4096 - start.0 / 4096),
        ensures
            final(self).wf(final(mem)@, final(pool)@),
            final(self).table().root() == old(self).table().root(),
            final(self).areas() == old(self).areas().push(final(self).areas().last()),
            final(self).user_area(
                old(self).areas().len() as int,
                (start.0 / 4096) as u64,
                (end.0 / 4096) as u64,
                perm,
            ),
            final(self).free_above(final(mem)@, headers, lo, (end.0 / 4096) as u64),
            final(self).table().mapping(final(mem)@, VirtPageNum(TRAMPOLINE_VPN)) == old(self).table().mapping(old(mem)@, VirtPageNum(TRAMPOLINE_VPN)),
            final(mem)@.base == old(mem)@.base,
            final(mem)@.words.len() == old(mem)@.words.len(),
            forall|p: u64, i: int|
                old(mem)@.holds(p) && old(pool)@.is_allocated(p) && !old(self).table().nodes().contains(p) && 0 <= i < 512 ==> #[trigger] final(mem)@.word(p, i)
                    == old(mem)@.word(p, i),
            final(pool)@.available() >= old(pool)@.available() - span_frames(
                (start.0 / 4096) as u64,
                (end.0 / 4096) as u64,
            ) - (end.0 / 4096 - start.0 / 4096),
            final(pool)@.base == old(pool)@.base,
            final(pool)@.end == old(pool)@.end,
    {
        let ghost s0 = *self;
        let ghost m0 = mem@;
        let area = MapArea::new(start, end, MapType::Framed, MapPermission { bits: perm });
        let ghost ps = (start.0 / 4096) as u64;
        let ghost pe = (end.0 / 4096) as u64;
        proof {
            assert(area.start() == ps && area.end() == pe);
            assert forall|v: u64| ps <= v < pe implies #[trigger] s0.is_free(m0, v) by {}
        }
        self.push(area, None, pool, mem);
        proof {
            assert(self.areas() =~= s0.areas().push(self.areas().last()));
            assert forall|v: u64| v <= TRAMPOLINE_VPN && !(ps <= v < pe) implies #[trigger] self.is_free(
                mem@,
                v,
            ) == s0.is_free(m0, v) by {
                assert(self.table().mapping(mem@, VirtPageNum(v)) == s0.table().mapping(
                    m0,
                    VirtPageNum(v),
                ));
            }
            assert(self.free_above(mem@, headers, lo, pe)) by {
                assert forall|v: u64|
                    v < TRAMPOLINE_VPN && !covered(headers, headers.len() as int, v) && !(lo <= v
                        < pe) implies #[trigger] self.is_free(mem@, v) by {
                    assert(s0.is_free(m0, v));
                }
            }
        }
    }

    /// The region at place `k` holds the segment of the header `h`: its
    /// pages are those of the segment, each mapped to a frame of its own with
    /// the segment's permission, and the frames hold the segment's bytes of
    /// `data`, from the first frame on, and zeroes after them.
    pub open spec fn holds_segment(
        &self,
        m: FrameModel,
        k: int,
        h: ProgramHeader,
        data: Seq<u8>,
    ) -> bool {
        let area = self.areas()[k];
        &&& area.start() == h.first_page()
        &&& area.end() == h.end_page()
        &&& area.kind() == MapType::Framed
        &&& area.perm() == (MapPermission { bits: h.perm() })
        &&& area.frames().len() == h.end_page() - h.first_page()
        &&& forall|j: int, i: int|
            0 <= j < area.frames().len() && 0 <= i < 4096 ==> #[trigger] m.byte(area.frames()[j], i)
                == (if j * 4096 + i < h.file_size {
                data[h.offset + j * 4096 + i]
            } else {
                0u8
            })
    }

    /// The frames of the regions are issued by the pool, stand in the
    /// memory and are no frames of the page table; each region has a frame
    /// for each of its pages if it is framed.
    pub proof fn lemma_area_frames(&self, m: FrameModel, pool: FramePool, k: int)
        requires
            self.wf(m, pool),
            0 <= k < self.areas().len(),
        ensures
            self.areas()[k].mapped_in(&self.table(), m, pool),
            forall|j: int|
                0 <= j < self.areas()[k].frames().len() ==> {
                    let f = #[trigger] self.areas()[k].frames()[j];
                    &&& pool.is_allocated(f)
                    &&& m.holds(f)
                    &&& !self.table().nodes().contains(f)
                },
            pool.wf(),
            pool_in_memory(pool, m),
            m.wf(),
    {
        reveal(MemorySet::wf);
        assert(self.areas()[k].mapped_in(&self.table(), m, pool));
    }

    /// Maps the segment of the header `h`, which is to be loaded, and
    /// copies its bytes of `data` into its frames.
    fn push_segment(
        &mut self,
        h: &ProgramHeader,
        data: &[u8],
        pool: &mut StackFrameAllocator,
        mem: &mut PhysMemory,
        Ghost(headers): Ghost<Seq<ProgramHeader>>,
        Ghost(n): Ghost<int>,
    )
        requires
            old(self).wf(old(mem)@, old(pool)@),
            h.load,
            h.fits(data@.len()),
            0 <= n < headers.len(),
            headers[n] == *h,
            old(self).free_but(old(mem)@, headers, n),
            forall|v: u64| h.has_page(v) ==> !covered(headers, n, v),
            old(pool)@.available() >= h.frames_needed(),
        ensures
            final(self).wf(final(mem)@, final(pool)@),
            final(self).table().root() == old(self).table().root(),
            final(self).areas() == old(self).areas().push(final(self).areas().last()),
            final(self).holds_segment(final(mem)@, old(self).areas().len() as int, *h, data@),
            final(self).free_but(final(mem)@, headers, n + 1),
            final(self).table().mapping(final(mem)@, VirtPageNum(TRAMPOLINE_VPN)) == old(self).table().mapping(old(mem)@, VirtPageNum(TRAMPOLINE_VPN)),
            final(mem)@.base == old(mem)@.base,
            final(mem)@.words.len() == old(mem)@.words.len(),
            forall|p: u64, i: int|
                old(mem)@.holds(p) && old(pool)@.is_allocated(p) && !old(self).table().nodes().contains(p) && 0 <= i < 512 ==> #[trigger] final(mem)@.word(p, i)
                    == old(mem)@.word(p, i),
            final(pool)@.available() >= old(pool)@.available() - h.frames_needed(),
            final(pool)@.base == old(pool)@.base,
            final(pool)@.end == old(pool)@.end,
            forall|p: u64| old(pool)@.is_allocated(p) ==> final(pool)@.is_allocated(p),
            forall|n: u64|
                old(self).table().nodes().contains(n) ==> final(self).table().nodes().contains(n),
            forall|n: u64|
                #[trigger] final(self).table().nodes().contains(n) && !old(self).table().nodes().contains(n) ==> !old(pool)@.is_allocated(n),
    {
        let ghost s0 = *self;
        let ghost m0 = mem@;
        let end = h.virtual_addr + h.mem_size;
        proof {
            crate::address::lemma_masks(h.virtual_addr);
            crate::address::lemma_masks(end);
            vstd::arithmetic::div_mod::lemma_small_mod(h.virtual_addr as nat, 0x80_0000_0000);
            vstd::arithmetic::div_mod::lemma_small_mod(end as nat, 0x80_0000_0000);
        }
        let start_va = VirtAddr::from(h.virtual_addr);
        let end_va = VirtAddr::from(end);
        let mut map_perm = MapPermission::U;
        if h.read {
            map_perm = map_perm | MapPermission::R;
        }
        if h.write {
            map_perm = map_perm | MapPermission::W;
        }
        if h.execute {
            map_perm = map_perm | MapPermission::X;
        }
        let map_area = MapArea::new(
            start_va,
            end_va,
            MapType::Framed,
            MapPermission { bits: map_perm },
        );
        let ghost ps = h.first_page();
        let ghost pe = h.end_page();
        let total = data.len();
        let from = h.offset as usize;
        let to = (h.offset + h.file_size) as usize;
        let chunk = slice_subrange(data, from, to);
        proof {
            assert(map_area.start() == ps && map_area.end() == pe);
            assert forall|v: u64| ps <= v < pe implies #[trigger] s0.is_free(m0, v) by {
                assert(h.has_page(v));
            }
        }
        self.push(map_area, Some(chunk), pool, mem);
        proof {
            assert(self.areas() =~= s0.areas().push(self.areas().last()));
            let area = self.areas().last();
            assert(area == self.areas()[s0.areas().len() as int]);
            self.lemma_area_frames(mem@, pool@, s0.areas().len() as int);
            assert forall|v: u64| v <= TRAMPOLINE_VPN && !(ps <= v < pe) implies #[trigger] self.is_free(
                mem@,
                v,
            ) == s0.is_free(m0, v) by {
                assert(self.table().mapping(mem@, VirtPageNum(v)) == s0.table().mapping(
                    m0,
                    VirtPageNum(v),
                ));
            }
            assert(self.free_but(mem@, headers, n + 1)) by {
                assert forall|v: u64|
                    v < TRAMPOLINE_VPN && !covered(headers, n + 1, v) implies #[trigger] self.is_free(
                    mem@,
                    v,
                ) by {
                    assert(!headers[n].has_page(v));
                    if covered(headers, n, v) {
                        let j = choose|j: int|
                            0 <= j < n && j < headers.len() && #[trigger] headers[j].has_page(v);
                        assert(headers[j].has_page(v));
                    }
                    assert(s0.is_free(m0, v));
                }
            }
            assert forall|j: int, i: int|
                0 <= j < area.frames().len() && 0 <= i < 4096 implies #[trigger] mem@.byte(
                area.frames()[j],
                i,
            ) == (if j * 4096 + i < h.file_size {
                data@[h.offset + j * 4096 + i]
            } else {
                0u8
            }) by {
                if j * 4096 + i < h.file_size {
                    assert(chunk@[j * 4096 + i] == data@[h.offset + j * 4096 + i]);
                }
            }
        }
    }

    /// The address space of a user program: the trampoline, the segments of
    /// the image that are to be loaded, the user stack above a guard page
    /// over the last segment, and the trap context page. Beside the address
    /// space, the top of the user stack and the entry point are returned.
    pub fn from_elf(
        image: &ElfImage,
        elf_data: &[u8],
        strampoline: u64,
        pool: &mut StackFrameAllocator,
        mem: &mut PhysMemory,
    ) -> (result: (MemorySet, u64, u64))
        requires
            old(pool)@.wf(),
            old(mem)@.wf(),
            pool_in_memory(old(pool)@, old(mem)@),
            image.fits(elf_data@.len()),
            strampoline % 4096 == 0,
            strampoline <= 0x00ff_ffff_ffff_ffff,
            old(pool)@.available() >= image.frames_needed(),
        ensures
            result.0.wf(final(mem)@, final(pool)@),
            result.0.table().root() == old(pool)@.upcoming(),
            result.0.areas().len() == loads(image.headers@, image.headers@.len() as int).len() + 2,
            forall|k: int|
                0 <= k < loads(image.headers@, image.headers@.len() as int).len()
                    ==> #[trigger] result.0.holds_segment(
                    final(mem)@,
                    k,
                    image.headers@[loads(image.headers@, image.headers@.len() as int)[k]],
                    elf_data@,
                ),
            result.0.user_area(
                result.0.areas().len() - 2,
                image.stack_page(),
                (image.stack_page() + 2) as u64,
                0x16,
            ),
            result.0.user_area(result.0.areas().len() - 1, 0x7ff_fffe, 0x7ff_ffff, 0x06),
            result.0.table().mapping(final(mem)@, VirtPageNum(TRAMPOLINE_VPN)) == Some(
                PageTableEntry { bits: pte_bits((strampoline / 4096) as u64, 0x0b) },
            ),
            result.1 == (image.stack_page() + 2) * 4096,
            result.2 == image.entry,
            final(pool)@.available() >= old(pool)@.available() - image.frames_needed(),
            final(pool)@.base == old(pool)@.base,
            final(pool)@.end == old(pool)@.end,
    {
        let ghost headers = image.headers@;
        let ghost pool0 = pool@;
        proof {
            lemma_segments_frames(headers, 0, headers.len() as int, elf_data@.len());
        }
        let mut memory_set = Self::new(pool, mem);
        let ghost s1 = memory_set;
        let ghost m1 = mem@;
        proof {
            pool0.lemma_issued();
        }
        // map trampoline
        memory_set.map_trampoline(strampoline, pool, mem);
        let ghost tramp = memory_set.table().mapping(mem@, VirtPageNum(TRAMPOLINE_VPN));
        proof {
            assert(memory_set.free_but(mem@, headers, 0)) by {
                assert forall|v: u64| v < TRAMPOLINE_VPN implies #[trigger] memory_set.is_free(
                    mem@,
                    v,
                ) by {
                    assert(s1.is_free(m1, v));
                    assert(memory_set.table().mapping(mem@, VirtPageNum(v)) == s1.table().mapping(
                        m1,
                        VirtPageNum(v),
                    ));
                }
            }
        }
        // map program headers of elf, with U flag
        let ph_count = image.headers.len();
        let mut max_end_vpn = VirtPageNum(0);
        let mut i: usize = 0;
        while i < ph_count
            invariant
                i <= ph_count,
                ph_count == headers.len(),
                headers == image.headers@,
                image.fits(elf_data@.len()),
                memory_set.wf(mem@, pool@),
                memory_set.table().root() == pool0.upcoming(),
                memory_set.free_but(mem@, headers, i as int),
                memory_set.table().mapping(mem@, VirtPageNum(TRAMPOLINE_VPN)) == tramp,
                memory_set.areas().len() == loads(headers, i as int).len(),
                forall|k: int|
                    0 <= k < loads(headers, i as int).len() ==> #[trigger] memory_set.holds_segment(
                        mem@,
                        k,
                        headers[loads(headers, i as int)[k]],
                        elf_data@,
                    ),
                forall|k: int|
                    0 <= k < loads(headers, i as int).len() ==> 0 <= #[trigger] loads(
                        headers,
                        i as int,
                    )[k] < i,
                max_end_vpn.0 == last_end(headers, i as int),
                max_end_vpn.0 <= 0x400_0000,
                pool0.available() >= image.frames_needed(),
                pool@.available() >= pool0.available() - 3 - segments_frames(headers, i as int),
                pool@.base == pool0.base,
                pool@.end == pool0.end,
            decreases ph_count - i,
        {
            let ph = image.headers[i];
            let ghost s2 = memory_set;
            let ghost m2 = mem@;
            let ghost pool2 = pool@;
            if ph.load {
                proof {
                    assert(headers[i as int].fits(elf_data@.len()));
                    assert forall|v: u64| ph.has_page(v) implies !covered(headers, i as int, v) by {
                        if covered(headers, i as int, v) {
                            let j = choose|j: int|
                                0 <= j < i && j < headers.len() && #[trigger] headers[j].has_page(v);
                            assert(!headers[i as int].has_page(v));
                        }
                    }
                    lemma_segments_frames(headers, i as int, headers.len() as int, elf_data@.len());
                }
                memory_set.push_segment(&ph, elf_data, pool, mem, Ghost(headers), Ghost(i as int));
                max_end_vpn = VirtPageNum((ph.virtual_addr + ph.mem_size - 1) / PAGE_BYTES + 1);
                proof {
                    let old_loads = loads(headers, i as int);
                    let new_loads = loads(headers, i + 1);
                    assert(new_loads == old_loads.push(i as int));
                    assert forall|k: int| 0 <= k < new_loads.len() implies #[trigger] memory_set.holds_segment(
                        mem@,
                        k,
                        headers[new_loads[k]],
                        elf_data@,
                    ) by {
                        if k < old_loads.len() {
                            assert(s2.holds_segment(m2, k, headers[old_loads[k]], elf_data@));
                            assert(memory_set.areas()[k] == s2.areas()[k]);
                            s2.lemma_area_frames(m2, pool2, k);
                            let area = s2.areas()[k];
                            assert forall|j: int, b: int|
                                0 <= j < area.frames().len() && 0 <= b < 4096 implies #[trigger] mem@.byte(
                                area.frames()[j],
                                b,
                            ) == m2.byte(area.frames()[j], b) by {
                                assert(mem@.word(area.frames()[j], b / 8) == m2.word(
                                    area.frames()[j],
                                    b / 8,
                                ));
                            }
                        }
                    }
                }
            } else {
                proof {
                    assert(loads(headers, i + 1) == loads(headers, i as int));
                    assert(memory_set.free_but(mem@, headers, i + 1)) by {
                        assert forall|v: u64|
                            v < TRAMPOLINE_VPN && !covered(headers, i + 1, v) implies #[trigger] memory_set.is_free(
                            mem@,
                            v,
                        ) by {
                            if covered(headers, i as int, v) {
                                let j = choose|j: int|
                                    0 <= j < i && j < headers.len() && #[trigger] headers[j].has_page(v);
                                assert(headers[j].has_page(v));
                            }
                        }
                    }
                }
            }
            i += 1;
        }
        // map user stack with U flags
        let ghost n = headers.len() as int;
        let ghost sp = image.stack_page();
        proof {
            assert(sp == max_end_vpn.0 + 1);
            crate::address::lemma_page_address(max_end_vpn.0);
            crate::address::lemma_masks((max_end_vpn.0 << 12) as u64);
            vstd::arithmetic::div_mod::lemma_small_mod(
                (max_end_vpn.0 * 4096) as nat,
                0x80_0000_0000,
            );
            lemma_segments_frames(headers, n, n, elf_data@.len());
        }
        let max_end_va: VirtAddr = VirtAddr::from(max_end_vpn);
        let mut user_stack_bottom: u64 = u64::from(max_end_va);
        // guard page
        user_stack_bottom += PAGE_BYTES;
        let user_stack_top = user_stack_bottom + USER_STACK_SIZE;
        proof {
            assert(user_stack_bottom == sp * 4096);
            assert(0x02u8 | 0x04u8 | 0x10u8 == 0x16u8 && 0x02u8 | 0x04u8 == 0x06u8
                && 0xffff_ffff_ffff_e000u64 & 0x7f_ffff_ffff == 0x7f_ffff_e000
                && 0xffff_ffff_ffff_f000u64 & 0x7f_ffff_ffff == 0x7f_ffff_f000) by (bit_vector);
            crate::address::lemma_masks(user_stack_bottom);
            crate::address::lemma_masks(user_stack_top);
            vstd::arithmetic::div_mod::lemma_small_mod(user_stack_bottom as nat, 0x80_0000_0000);
            vstd::arithmetic::div_mod::lemma_small_mod(user_stack_top as nat, 0x80_0000_0000);
            assert(memory_set.free_above(mem@, headers, sp, sp)) by {
                assert forall|v: u64|
                    v < TRAMPOLINE_VPN && !covered(headers, n, v) implies #[trigger] memory_set.is_free(
                    mem@,
                    v,
                ) by {}
            }
            assert forall|v: u64| sp <= v < sp + 2 implies !covered(headers, n, v) by {
                if covered(headers, n, v) {
                    let j = choose|j: int|
                        0 <= j < n && j < headers.len() && #[trigger] headers[j].has_page(v);
                    assert(!headers[j].has_page(v));
                }
            }
            assert forall|v: u64| 0x7ff_fffe <= v < 0x7ff_ffff implies !covered(headers, n, v) by {
                if covered(headers, n, v) {
                    let j = choose|j: int|
                        0 <= j < n && j < headers.len() && #[trigger] headers[j].has_page(v);
                    assert(headers[j].fits(elf_data@.len()));
                }
            }
        }
        let ghost count = memory_set.areas().len() as int;
        let ghost s2 = memory_set;
        let ghost m2 = mem@;
        let ghost pool2 = pool@;
        memory_set.push_user(
            VirtAddr::from(user_stack_bottom),
            VirtAddr::from(user_stack_top),
            MapPermission::R | MapPermission::W | MapPermission::U,
            pool,
            mem,
            Ghost(headers),
            Ghost(sp),
            Ghost(sp),
        );
        let ghost s3 = memory_set;
        let ghost m3 = mem@;
        let ghost pool3 = pool@;
        // map TrapContext
        memory_set.push_user(
            VirtAddr::from(TRAP_CONTEXT),
            VirtAddr::from(TRAMPOLINE),
            MapPermission::R | MapPermission::W,
            pool,
            mem,
            Ghost(headers),
            Ghost(sp),
            Ghost((sp + 2) as u64),
        );
        proof {
            let all = loads(headers, n);
            assert(memory_set.areas()[count] == s3.areas()[count]);
            assert forall|k: int| 0 <= k < all.len() implies #[trigger] memory_set.holds_segment(
                mem@,
                k,
                headers[all[k]],
                elf_data@,
            ) by {
                assert(s2.holds_segment(m2, k, headers[all[k]], elf_data@));
                assert(memory_set.areas()[k] == s3.areas()[k]);
                assert(s3.areas()[k] == s2.areas()[k]);
                s2.lemma_area_frames(m2, pool2, k);
                s3.lemma_area_frames(m3, pool3, k);
                let area = s2.areas()[k];
                assert forall|j: int, b: int|
                    0 <= j < area.frames().len() && 0 <= b < 4096 implies #[trigger] mem@.byte(
                    area.frames()[j],
                    b,
                ) == m2.byte(area.frames()[j], b) by {
                    let f = area.frames()[j];
                    assert(m3.word(f, b / 8) == m2.word(f, b / 8));
                    assert(mem@.word(f, b / 8) == m3.word(f, b / 8));
                }
            }
        }
        (memory_set, user_stack_top, image.entry)
    }

    /// Two regions of the address space have no page and no frame in
    /// common.
    pub proof fn lemma_areas_apart(&self, m: FrameModel, pool: FramePool, i: int, j: int)
        requires
            self.wf(m, pool),
            0 <= i < self.areas().len(),
            0 <= j < self.areas().len(),
            i != j,
        ensures
            areas_apart(self.areas()[i], self.areas()[j]),
    {
        reveal(MemorySet::wf);
    }

    /// The frame that the page `v` of the region at place `k` is mapped to
    /// is that of the region's list of frames.
    pub proof fn lemma_area_page(&self, m: FrameModel, pool: FramePool, k: int, v: u64)
        requires
            self.wf(m, pool),
            0 <= k < self.areas().len(),
            self.areas()[k].start() <= v < self.areas()[k].end(),
        ensures
            self.table().walk(m, VirtPageNum(v)) == Some(self.areas()[k].entry_of(v)),
            self.areas()[k].kind() == MapType::Framed ==> crate::page_table::pte_ppn(
                self.areas()[k].entry_of(v).bits,
            ) == self.areas()[k].frames()[v - self.areas()[k].start()] && 0 <= v
                - self.areas()[k].start() < self.areas()[k].frames().len(),
    {
        self.lemma_area_frames(m, pool, k);
        let area = self.areas()[k];
        assert(self.table().mapping(m, VirtPageNum(v)) == Some(area.entry_of(v)));
        if area.kind() == MapType::Framed {
            let f = area.frames()[v - area.start()];
            assert(pool.is_allocated(f));
            lemma_pte_bits(f, area.perm().bits | 0x01);
        }
    }

    /// The frames of the region at place `k` hold what the frames of the
    /// region at the same place of `user` held in the memory `m0`, and the
    /// two regions have the same pages, kind and permission.
    pub open spec fn clone_of(&self, m: FrameModel, user: &MemorySet, m0: FrameModel, k: int) -> bool {
        let area = self.areas()[k];
        let from = user.areas()[k];
        &&& area.start() == from.start()
        &&& area.end() == from.end()
        &&& area.kind() == from.kind()
        &&& area.perm() == from.perm()
        &&& area.frames().len() == from.frames().len()
        &&& forall|j: int|
            0 <= j < area.frames().len() ==> #[trigger] m.frame(area.frames()[j]) == m0.frame(
                from.frames()[j],
            )
    }

    /// Number of frames that mapping the first `n` regions takes at most.
    pub open spec fn areas_frames(&self, n: int) -> int
        decreases n,
    {
        if n <= 0 {
            0
        } else {
            self.areas_frames(n - 1) + self.areas()[n - 1].frames_needed()
        }
    }

    /// The frames that the first regions take are no more than those that
    /// more regions take.
    pub proof fn lemma_areas_frames(&self, m: FrameModel, pool: FramePool, a: int, b: int)
        requires
            self.wf(m, pool),
            0 <= a <= b <= self.areas().len(),
        ensures
            self.areas_frames(a) <= self.areas_frames(b),
            a < b ==> self.areas_frames(a) + self.areas()[a].frames_needed() <= self.areas_frames(b),
        decreases b - a,
    {
        if a < b {
            self.lemma_areas_frames(m, pool, a, b - 1);
            self.lemma_area_frames(m, pool, b - 1);
        }
    }

    /// Copies the frames of the region at place `k` of `user` to the frames
    /// of the region at the same place of this address space.
    fn copy_frames(
        &self,
        user: &MemorySet,
        k: usize,
        pool: &StackFrameAllocator,
        mem: &mut PhysMemory,
        Ghost(m0): Ghost<FrameModel>,
        Ghost(pool0): Ghost<FramePool>,
    )
        requires
            self.wf(old(mem)@, pool@),
            user.wf(old(mem)@, pool@),
            user.wf(m0, pool0),
            k < user.areas().len(),
            k < self.areas().len(),
            user.areas()[k as int].kind() == MapType::Framed,
            self.areas()[k as int].kind() == MapType::Framed,
            self.areas()[k as int].start() == user.areas()[k as int].start(),
            self.areas()[k as int].end() == user.areas()[k as int].end(),
            old(mem)@.same_but(m0, Set::new(|p: u64| !pool0.is_allocated(p))),
            forall|p: u64| pool0.is_allocated(p) ==> pool@.is_allocated(p),
            forall|n: u64| self.table().nodes().contains(n) ==> !pool0.is_allocated(n),
            forall|j: int|
                0 <= j < self.areas()[k as int].frames().len() ==> !pool0.is_allocated(
                    #[trigger] self.areas()[k as int].frames()[j],
                ),
        ensures
            final(mem)@.wf(),
            self.wf(final(mem)@, pool@),
            user.wf(final(mem)@, pool@),
            final(mem)@.same_but(old(mem)@, self.areas()[k as int].frames().to_set()),
            final(mem)@.same_but(m0, Set::new(|p: u64| !pool0.is_allocated(p))),
            forall|j: int|
                0 <= j < self.areas()[k as int].frames().len() ==> #[trigger] final(mem)@.frame(
                    self.areas()[k as int].frames()[j],
                ) == m0.frame(user.areas()[k as int].frames()[j]),
    {
        let ghost m1 = mem@;
        let ghost area = self.areas()[k as int];
        let ghost from = user.areas()[k as int];
        let ghost fresh = Set::new(|p: u64| !pool0.is_allocated(p));
        proof {
            self.lemma_area_frames(m1, pool@, k as int);
            user.lemma_area_frames(m1, pool@, k as int);
            user.lemma_area_frames(m0, pool0, k as int);
        }
        let start = self.map_areas[k].start_vpn().0;
        let end = self.map_areas[k].end_vpn().0;
        let mut cur = start;
        while cur < end
            invariant
                start <= cur <= end,
                start == area.start(),
                end == area.end(),
                area == self.areas()[k as int],
                from == user.areas()[k as int],
                k < user.areas().len(),
                k < self.areas().len(),
                area.kind() == MapType::Framed,
                from.kind() == MapType::Framed,
                from.start() == start,
                from.end() == end,
                area.frames().len() == end - start,
                from.frames().len() == end - start,
                area.frames().no_duplicates(),
                fresh == Set::new(|p: u64| !pool0.is_allocated(p)),
                mem@.wf(),
                self.wf(mem@, pool@),
                user.wf(mem@, pool@),
                user.wf(m0, pool0),
                mem@.same_but(m1, area.frames().to_set()),
                mem@.same_but(m0, fresh),
                forall|p: u64| pool0.is_allocated(p) ==> pool@.is_allocated(p),
                forall|n: u64| self.table().nodes().contains(n) ==> !pool0.is_allocated(n),
                forall|j: int|
                    0 <= j < area.frames().len() ==> !pool0.is_allocated(#[trigger] area.frames()[j]),
                forall|j: int|
                    0 <= j < from.frames().len() ==> pool0.is_allocated(#[trigger] from.frames()[j])
                        && m0.holds(from.frames()[j]),
                forall|j: int|
                    0 <= j < cur - start ==> #[trigger] mem@.frame(area.frames()[j]) == m0.frame(
                        from.frames()[j],
                    ),
            decreases end - cur,
        {
            let ghost m2 = mem@;
            let vpn = VirtPageNum(cur);
            proof {
                self.lemma_area_page(m2, pool@, k as int, cur);
                user.lemma_area_page(m2, pool@, k as int, cur);
                self.lemma_area_frames(m2, pool@, k as int);
                user.lemma_area_frames(m2, pool@, k as int);
            }
            let src_pte = user.translate(vpn, mem).unwrap();
            let dst_pte = self.translate(vpn, mem).unwrap();
            let src_ppn = src_pte.ppn();
            let dst_ppn = dst_pte.ppn();
            mem.copy_frame(dst_ppn, src_ppn);
            proof {
                let m3 = mem@;
                let j = cur - start;
                let dst = area.frames()[j];
                let src = from.frames()[j];
                assert(dst_ppn.0 == dst && src_ppn.0 == src);
                assert(dst != src);
                assert(m2.frame(src) =~= m0.frame(src)) by {
                    assert forall|i: int| 0 <= i < 512 implies m2.word(src, i) == m0.word(src, i) by {
                        assert(!fresh.contains(src));
                    }
                }
                assert(fresh.contains(dst));
                assert(area.frames().to_set().contains(dst)) by {
                    assert(area.frames().contains(dst));
                }
                assert(m3.same_but(m1, area.frames().to_set())) by {
                    assert forall|p: u64, i: int|
                        m1.holds(p) && !area.frames().to_set().contains(p) && 0 <= i
                            < 512 implies #[trigger] m3.word(p, i) == m1.word(p, i) by {
                        assert(m2.word(p, i) == m1.word(p, i));
                        assert(m2.holds(p));
                    }
                }
                assert(m3.same_but(m0, fresh)) by {
                    assert forall|p: u64, i: int|
                        m0.holds(p) && !fresh.contains(p) && 0 <= i < 512 implies #[trigger] m3.word(
                        p,
                        i,
                    ) == m0.word(p, i) by {
                        assert(m2.word(p, i) == m0.word(p, i));
                        assert(m2.holds(p));
                    }
                }
                assert forall|p: u64| #[trigger] m3.holds(p) == m2.holds(p) by {}
                self.lemma_area_frames(m2, pool@, k as int);
                self.lemma_frame(m2, pool@, m3, pool@, set![dst]);
                assert(!user.table().nodes().contains(dst)) by {
                    if user.table().nodes().contains(dst) {
                        user.lemma_nodes_allocated(m0, pool0, dst);
                    }
                }
                user.lemma_frame(m2, pool@, m3, pool@, set![dst]);
                assert forall|i: int| 0 <= i < cur + 1 - start implies #[trigger] m3.frame(
                    area.frames()[i],
                ) == m0.frame(from.frames()[i]) by {
                    if i < j {
                        assert(area.frames()[i] != dst);
                        assert(m2.holds(area.frames()[i]));
                        assert(m3.frame(area.frames()[i]) =~= m2.frame(area.frames()[i]));
                    }
                }
            }
            cur = cur + 1;
        }
    }

    /// The frames of the page table are issued by the pool.
    pub proof fn lemma_nodes_allocated(&self, m: FrameModel, pool: FramePool, n: u64)
        requires
            self.wf(m, pool),
            self.table().nodes().contains(n),
        ensures
            pool.is_allocated(n),
            m.holds(n),
    {
        reveal(MemorySet::wf);
        let t = self.table();
        if t.level1().contains(n) || t.level2().contains(n) || n == t.root() {
        }
    }

    /// Clone a `MemorySet`: an address space with the trampoline and with
    /// regions of the same pages, kinds and permissions as those of
    /// `user_space`, whose frames hold what the frames of `user_space` hold.
    pub fn copy_from_user(
        user_space: &MemorySet,
        strampoline: u64,
        pool: &mut StackFrameAllocator,
        mem: &mut PhysMemory,
    ) -> (set: MemorySet)
        requires
            user_space.wf(old(mem)@, old(pool)@),
            strampoline % 4096 == 0,
            strampoline <= 0x00ff_ffff_ffff_ffff,
            forall|k: int|
                0 <= k < user_space.areas().len() ==> (#[trigger] user_space.areas()[k]).kind()
                    == MapType::Framed && user_space.areas()[k].end() <= TRAMPOLINE_VPN,
            old(pool)@.available() >= 3 + user_space.areas_frames(
                user_space.areas().len() as int,
            ),
        ensures
            set.wf(final(mem)@, final(pool)@),
            user_space.wf(final(mem)@, final(pool)@),
            set.table().root() == old(pool)@.upcoming(),
            set.areas().len() == user_space.areas().len(),
            forall|k: int|
                0 <= k < set.areas().len() ==> #[trigger] set.clone_of(
                    final(mem)@,
                    user_space,
                    old(mem)@,
                    k,
                ),
            set.table().mapping(final(mem)@, VirtPageNum(TRAMPOLINE_VPN)) == Some(
                PageTableEntry { bits: pte_bits((strampoline / 4096) as u64, 0x0b) },
            ),
            final(mem)@.same_but(old(mem)@, Set::new(|p: u64| !old(pool)@.is_allocated(p))),
            forall|p: u64| old(pool)@.is_allocated(p) ==> final(pool)@.is_allocated(p),
            final(pool)@.available() >= old(pool)@.available() - 3 - user_space.areas_frames(
                user_space.areas().len() as int,
            ),
            final(pool)@.base == old(pool)@.base,
            final(pool)@.end == old(pool)@.end,
    {
        let ghost m0 = mem@;
        let ghost pool0 = pool@;
        let ghost fresh = Set::new(|p: u64| !pool0.is_allocated(p));
        let ghost total = user_space.areas().len() as int;
        proof {
            user_space.lemma_areas_frames(m0, pool0, 0, total);
            user_space.lemma_pool(m0, pool0);
            pool0.lemma_issued();
        }
        let mut memory_set = Self::new(pool, mem);
        let ghost s1 = memory_set;
        let ghost m1 = mem@;
        let ghost pool1 = pool@;
        proof {
            assert(fresh.contains(s1.table().root()));
            assert(m1.same_but(m0, fresh)) by {
                assert forall|p: u64, i: int|
                    m0.holds(p) && !fresh.contains(p) && 0 <= i < 512 implies #[trigger] m1.word(
                    p,
                    i,
                ) == m0.word(p, i) by {}
            }
        }
        // map trampoline
        memory_set.map_trampoline(strampoline, pool, mem);
        let ghost tramp = memory_set.table().mapping(mem@, VirtPageNum(TRAMPOLINE_VPN));
        proof {
            let s2 = memory_set;
            let m2 = mem@;
            assert forall|n: u64| s2.table().nodes().contains(n) implies !pool0.is_allocated(n) by {
                if s1.table().nodes().contains(n) {
                    assert(n == s1.table().root());
                } else {
                    assert(!pool1.is_allocated(n));
                }
            }
            assert(m2.same_but(m0, fresh)) by {
                assert forall|p: u64, i: int|
                    m0.holds(p) && !fresh.contains(p) && 0 <= i < 512 implies #[trigger] m2.word(
                    p,
                    i,
                ) == m0.word(p, i) by {
                    assert(m1.word(p, i) == m0.word(p, i));
                    assert(m1.holds(p));
                }
            }
            assert forall|p: u64| #[trigger] m2.holds(p) == m0.holds(p) by {}
            assert forall|n: u64| fresh.contains(n) implies !user_space.table().nodes().contains(
                n,
            ) by {
                if user_space.table().nodes().contains(n) {
                    user_space.lemma_nodes_allocated(m0, pool0, n);
                }
            }
            memory_set.lemma_pool(m2, pool@);
            user_space.lemma_frame(m0, pool0, m2, pool@, fresh);
            assert(memory_set.free_ahead(mem@, user_space, 0)) by {
                assert forall|v: u64| v < TRAMPOLINE_VPN implies #[trigger] memory_set.is_free(
                    mem@,
                    v,
                ) by {
                    assert(s1.is_free(m1, v));
                    assert(memory_set.table().mapping(mem@, VirtPageNum(v)) == s1.table().mapping(
                        m1,
                        VirtPageNum(v),
                    ));
                }
            }
        }
        // copy data sections/trap_context/user_stack
        let count = user_space.map_areas.len();
        let mut k: usize = 0;
        while k < count
            invariant
                k <= count,
                count == user_space.areas().len(),
                total == count,
                fresh == Set::new(|p: u64| !pool0.is_allocated(p)),
                user_space.wf(m0, pool0),
                user_space.wf(mem@, pool@),
                memory_set.wf(mem@, pool@),
                memory_set.table().root() == pool0.upcoming(),
                memory_set.table().mapping(mem@, VirtPageNum(TRAMPOLINE_VPN)) == tramp,
                memory_set.areas().len() == k,
                memory_set.free_ahead(mem@, user_space, k as int),
                forall|i: int|
                    0 <= i < user_space.areas().len() ==> (#[trigger] user_space.areas()[i]).kind()
                        == MapType::Framed && user_space.areas()[i].end() <= TRAMPOLINE_VPN,
                forall|i: int|
                    0 <= i < k ==> #[trigger] memory_set.clone_of(mem@, user_space, m0, i),
                mem@.same_but(m0, fresh),
                forall|p: u64| pool0.is_allocated(p) ==> pool@.is_allocated(p),
                forall|n: u64| memory_set.table().nodes().contains(n) ==> !pool0.is_allocated(n),
                forall|i: int, j: int|
                    0 <= i < k && 0 <= j < memory_set.areas()[i].frames().len() ==> !pool0.is_allocated(
                        #[trigger] memory_set.areas()[i].frames()[j],
                    ),
                pool0.available() >= 3 + user_space.areas_frames(total),
                pool@.available() >= pool0.available() - 3 - user_space.areas_frames(k as int),
                pool@.base == pool0.base,
                pool@.end == pool0.end,
            decreases count - k,
        {
            let ghost s2 = memory_set;
            let ghost m2 = mem@;
            let ghost pool2 = pool@;
            let area = &user_space.map_areas[k];
            let new_area = MapArea::from_another(area);
            proof {
                user_space.lemma_area_frames(m2, pool2, k as int);
                user_space.lemma_areas_frames(m0, pool0, k as int, total);
                assert forall|v: u64| new_area.start() <= v < new_area.end() implies #[trigger] s2.is_free(
                    m2,
                    v,
                ) by {
                    if user_space.in_first(k as int, v) {
                        let i = choose|i: int|
                            0 <= i < k && (#[trigger] user_space.areas()[i]).start() <= v
                                < user_space.areas()[i].end();
                        user_space.lemma_areas_apart(m0, pool0, i, k as int);
                    }
                }
            }
            memory_set.push(new_area, None, pool, mem);
            let ghost s3 = memory_set;
            let ghost m3 = mem@;
            let ghost pool3 = pool@;
            proof {
                assert forall|p: u64| #[trigger] m3.holds(p) == m2.holds(p) by {}
                assert(m3.same_but(m0, fresh)) by {
                    assert forall|p: u64, i: int|
                        m0.holds(p) && !fresh.contains(p) && 0 <= i < 512 implies #[trigger] m3.word(
                        p,
                        i,
                    ) == m0.word(p, i) by {
                        assert(m2.word(p, i) == m0.word(p, i));
                        assert(m2.holds(p));
                        assert(pool2.is_allocated(p));
                    }
                }
                assert forall|n: u64| s3.table().nodes().contains(n) implies !pool0.is_allocated(n) by {
                    if !s2.table().nodes().contains(n) {
                        assert(!pool2.is_allocated(n));
                    }
                }
                assert forall|n: u64| fresh.contains(n) implies !user_space.table().nodes().contains(
                    n,
                ) by {
                    if user_space.table().nodes().contains(n) {
                        user_space.lemma_nodes_allocated(m0, pool0, n);
                    }
                }
                s3.lemma_pool(m3, pool3);
                user_space.lemma_frame(m0, pool0, m3, pool3, fresh);
                user_space.lemma_frame(m0, pool0, m3, pool3, fresh);
                assert(s3.areas()[k as int] == s3.areas().last());
                assert forall|j: int|
                    0 <= j < s3.areas()[k as int].frames().len() implies !pool0.is_allocated(
                    #[trigger] s3.areas()[k as int].frames()[j],
                ) by {
                    assert(!pool2.is_allocated(s3.areas()[k as int].frames()[j]));
                }
                s3.lemma_area_frames(m3, pool3, k as int);
            }
            memory_set.copy_frames(user_space, k, pool, mem, Ghost(m0), Ghost(pool0));
            proof {
                let m4 = mem@;
                s3.lemma_area_frames(m3, pool3, k as int);
                let done = s3.areas()[k as int].frames();
                assert forall|n: u64| done.to_set().contains(n) implies !s3.table().nodes().contains(
                    n,
                ) by {
                    let j = choose|j: int| 0 <= j < done.len() && done[j] == n;
                    assert(!s3.table().nodes().contains(done[j]));
                }
                s3.lemma_pool(m3, pool3);
                assert forall|p: u64| #[trigger] m4.holds(p) == m3.holds(p) by {}
                assert(pool_in_memory(pool3, m4));
                s3.lemma_frame(m3, pool3, m4, pool3, done.to_set());
                assert forall|v: u64| v <= TRAMPOLINE_VPN implies #[trigger] memory_set.is_free(m4, v)
                    == s3.is_free(m3, v) by {
                    assert(s3.table().mapping(m4, VirtPageNum(v)) == s3.table().mapping(
                        m3,
                        VirtPageNum(v),
                    ));
                }
                assert(memory_set.free_ahead(m4, user_space, k + 1)) by {
                    assert forall|v: u64|
                        v < TRAMPOLINE_VPN && !user_space.in_first(k + 1, v) implies #[trigger] memory_set.is_free(
                        m4,
                        v,
                    ) by {
                        assert(!(user_space.areas()[k as int].start() <= v
                            < user_space.areas()[k as int].end()));
                        if user_space.in_first(k as int, v) {
                            let i = choose|i: int|
                                0 <= i < k && (#[trigger] user_space.areas()[i]).start() <= v
                                    < user_space.areas()[i].end();
                            assert(user_space.areas()[i].start() <= v < user_space.areas()[i].end());
                        }
                        assert(s2.is_free(m2, v));
                        assert(s3.table().mapping(m3, VirtPageNum(v)) == s2.table().mapping(
                            m2,
                            VirtPageNum(v),
                        ));
                    }
                }
                assert forall|i: int| 0 <= i < k + 1 implies #[trigger] memory_set.clone_of(
                    m4,
                    user_space,
                    m0,
                    i,
                ) by {
                    if i < k {
                        assert(s2.clone_of(m2, user_space, m0, i));
                        assert(memory_set.areas()[i] == s2.areas()[i]);
                        s2.lemma_area_frames(m2, pool2, i);
                        s3.lemma_areas_apart(m3, pool3, i, k as int);
                        let a = s2.areas()[i];
                        assert forall|j: int| 0 <= j < a.frames().len() implies #[trigger] m4.frame(
                            a.frames()[j],
                        ) == m2.frame(a.frames()[j]) by {
                            let f = a.frames()[j];
                            assert(!s3.areas()[k as int].frames().to_set().contains(f)) by {
                                if s3.areas()[k as int].frames().to_set().contains(f) {
                                    let l = choose|l: int|
                                        0 <= l < s3.areas()[k as int].frames().len() && s3.areas()[k as int].frames()[l]
                                            == f;
                                    assert(s3.areas()[i].frames()[j] != s3.areas()[k as int].frames()[l]);
                                }
                            }
                            assert(m3.holds(f));
                            assert(m4.frame(f) =~= m3.frame(f));
                            assert(m3.frame(f) =~= m2.frame(f)) by {
                                assert forall|w: int| 0 <= w < 512 implies m3.word(f, w) == m2.word(
                                    f,
                                    w,
                                ) by {}
                            }
                        }
                    }
                }
                assert forall|i: int, j: int|
                    0 <= i < k + 1 && 0 <= j < memory_set.areas()[i].frames().len() implies !pool0.is_allocated(
                    #[trigger] memory_set.areas()[i].frames()[j],
                ) by {
                    if i < k {
                        assert(memory_set.areas()[i] == s2.areas()[i]);
                    }
                }
                assert(memory_set.table().mapping(m4, VirtPageNum(TRAMPOLINE_VPN)) == tramp);
            }
            k += 1;
        }
        memory_set
    }

    /// The page `v` is a page of one of the first `n` regions.
    pub open spec fn in_first(&self, n: int, v: u64) -> bool {
        exists|i: int| 0 <= i < n && (#[trigger] self.areas()[i]).start() <= v < self.areas()[i].end()
    }

    /// Below the trampoline no page is mapped but those of the first `n`
    /// regions of `user`.
    pub open spec fn free_ahead(&self, m: FrameModel, user: &MemorySet, n: int) -> bool {
        forall|v: u64| v < TRAMPOLINE_VPN && !user.in_first(n, v) ==> #[trigger] self.is_free(m, v)
    }

    /// The pool of a sound address space is sound and issues frames of the
    /// memory.
    pub proof fn lemma_pool(&self, m: FrameModel, pool: FramePool)
        requires
            self.wf(m, pool),
        ensures
            pool.wf(),
            pool_in_memory(pool, m),
            m.wf(),
    {
        reveal(MemorySet::wf);
    }

    /// The region at place `i` is that of the pages from `start` up to
    /// `end`, each mapped to a frame of its own with the permission `perm`,
    /// and filled with zeroes.
    pub open spec fn user_area(&self, i: int, start: u64, end: u64, perm: u8) -> bool {
        let area = self.areas()[i];
        &&& area.start() == start
        &&& area.end() == end
        &&& area.kind() == MapType::Framed
        &&& area.perm() == (MapPermission { bits: perm })
    }

    /// The region at place `i` is that of the pages that hold the
    /// addresses from `start` up to `end`, each mapped to the frame of its
    /// own number with the permission `perm`.
    pub open spec fn kernel_area(&self, i: int, start: u64, end: u64, perm: u8) -> bool {
        let area = self.areas()[i];
        &&& area.start() == page_down(start)
        &&& area.end() == page_up(end)
        &&& area.kind() == MapType::Identical
        &&& area.perm() == (MapPermission { bits: perm })
    }

    /// Takes the first region that starts at the page `start_vpn`, if there
    /// is one, out of the address space: its pages are unmapped and its
    /// frames go back to the pool.
    pub fn remove_areas(&mut self, start_vpn: VirtPageNum, pool: &mut StackFrameAllocator, mem: &mut PhysMemory)
        requires
            old(self).wf(old(mem)@, old(pool)@),
        ensures
            final(self).wf(final(mem)@, final(pool)@),
            final(self).table().root() == old(self).table().root(),
            match old(self).first_at(start_vpn.0) {
                None => {
                    &&& final(self).areas() == old(self).areas()
                    &&& final(mem)@ == old(mem)@
                    &&& final(pool)@ == old(pool)@
                },
                Some(idx) => {
                    let area = old(self).areas()[idx];
                    &&& final(self).areas() == old(self).areas().remove(idx)
                    &&& forall|v: u64|
                        area.start() <= v < area.end() ==> #[trigger] final(self).is_free(
                            final(mem)@,
                            v,
                        )
                    &&& forall|v: VirtPageNum|
                        v.0 < 0x800_0000 && !(area.start() <= v.0 < area.end())
                            ==> #[trigger] final(self).table().mapping(final(mem)@, v) == old(self).table().mapping(old(mem)@, v)
                    &&& final(pool)@ == (FramePool {
                        recycled: old(pool)@.recycled + area.frames(),
                        ..old(pool)@
                    })
                    &&& final(mem)@.same_but(old(mem)@, old(self).table().nodes())
                },
            },
    {
        let ghost s0 = *self;
        let ghost m0 = mem@;
        let ghost pool0 = pool@;
        proof {
            reveal(MemorySet::wf);
        }
        let mut idx: usize = 0;
        while idx < self.map_areas.len() && self.map_areas[idx].start_vpn().0 != start_vpn.0
            invariant
                *self == s0,
                idx <= self.map_areas@.len(),
                forall|i: int| 0 <= i < idx ==> (#[trigger] s0.areas()[i]).start() != start_vpn.0,
            decreases self.map_areas@.len() - idx,
        {
            idx += 1;
        }
        if idx < self.map_areas.len() {
            proof {
                s0.lemma_first_at(start_vpn.0, idx as int);
            }
            let mut area = self.map_areas.remove(idx);
            let ghost gone = area;
            proof {
                assert(gone == s0.areas()[idx as int]);
                assert(gone.mapped_in(&s0.table(), m0, pool0));
            }
            area.unmap(&mut self.page_table, pool, mem);
            proof {
                let areas = self.areas();
                let t2 = self.table();
                let m2 = mem@;
                let pool2 = pool@;
                assert forall|p: u64| #[trigger] m2.holds(p) == m0.holds(p) by {}
                assert forall|i: int| 0 <= i < areas.len() implies (#[trigger] areas[i]).mapped_in(
                    &t2,
                    m2,
                    pool2,
                ) by {
                    let ii = if i < idx { i } else { i + 1 };
                    let b = areas[i];
                    assert(b == s0.areas()[ii]);
                    assert(b.mapped_in(&s0.table(), m0, pool0));
                    assert(areas_apart(s0.areas()[ii], s0.areas()[idx as int]));
                    assert forall|v: u64| b.start() <= v < b.end() implies #[trigger] t2.mapping(
                        m2,
                        VirtPageNum(v),
                    ) == Some(b.entry_of(v)) by {
                        assert(s0.table().mapping(m0, VirtPageNum(v)) == Some(b.entry_of(v)));
                    }
                    assert forall|k: int| 0 <= k < b.frames().len() implies {
                        let f = #[trigger] b.frames()[k];
                        &&& pool2.is_allocated(f)
                        &&& m2.holds(f)
                        &&& !t2.nodes().contains(f)
                    } by {
                        let f = b.frames()[k];
                        assert(pool0.is_allocated(f));
                        if gone.frames().contains(f) {
                            let l = choose|l: int|
                                0 <= l < gone.frames().len() && gone.frames()[l] == f;
                            assert(b.frames()[k] != gone.frames()[l]);
                        }
                    }
                }
                assert forall|i: int, j: int|
                    0 <= i < areas.len() && 0 <= j < areas.len() && i != j implies areas_apart(
                    #[trigger] areas[i],
                    #[trigger] areas[j],
                ) by {
                    let ii = if i < idx { i } else { i + 1 };
                    let jj = if j < idx { j } else { j + 1 };
                    assert(areas[i] == s0.areas()[ii] && areas[j] == s0.areas()[jj]);
                    assert(areas_apart(s0.areas()[ii], s0.areas()[jj]));
                }
            }
        } else {
            proof {
                s0.lemma_no_first_at(start_vpn.0);
            }
        }
    }

    /// The place of the first region that starts at the page `vpn`.
    pub open spec fn first_at(&self, vpn: u64) -> Option<int> {
        if exists|i: int| 0 <= i < self.areas().len() && (#[trigger] self.areas()[i]).start() == vpn {
            Some(
                choose|i: int|
                    0 <= i < self.areas().len() && (#[trigger] self.areas()[i]).start() == vpn
                        && forall|j: int|
                        0 <= j < i ==> (#[trigger] self.areas()[j]).start() != vpn,
            )
        } else {
            None
        }
    }

    /// A region that starts at `vpn` and has none before it that does is
    /// the first that does.
    pub proof fn lemma_first_at(&self, vpn: u64, idx: int)
        requires
            0 <= idx < self.areas().len(),
            self.areas()[idx].start() == vpn,
            forall|j: int| 0 <= j < idx ==> (#[trigger] self.areas()[j]).start() != vpn,
        ensures
            self.first_at(vpn) == Some(idx),
    {
        let i = choose|i: int|
            0 <= i < self.areas().len() && (#[trigger] self.areas()[i]).start() == vpn && forall|
                j: int,
            |
                0 <= j < i ==> (#[trigger] self.areas()[j]).start() != vpn;
        if i < idx {
            assert(self.areas()[i].start() != vpn);
        }
        if idx < i {
            assert(self.areas()[idx].start() != vpn);
        }
    }

    /// Where no region starts at `vpn`, none is the first that does.
    pub proof fn lemma_no_first_at(&self, vpn: u64)
        requires
            forall|j: int| 0 <= j < self.areas().len() ==> (#[trigger] self.areas()[j]).start() != vpn,
        ensures
            self.first_at(vpn).is_none(),
    {
    }

    /// Maps the trampoline page, the last page of the address space, to the
    /// frame at `strampoline`, to read and to execute. The page is part of no
    /// region.
    pub fn map_trampoline(&mut self, strampoline: u64, pool: &mut StackFrameAllocator, mem: &mut PhysMemory)
        requires
            old(self).wf(old(mem)@, old(pool)@),
            strampoline % 4096 == 0,
            strampoline <= 0x00ff_ffff_ffff_ffff,
            old(self).is_free(old(mem)@, TRAMPOLINE_VPN),
            old(pool)@.available() >= old(self).table().missing_levels(
                old(mem)@,
                VirtPageNum(TRAMPOLINE_VPN),
            ),
            forall|i: int|
                0 <= i < old(self).areas().len() ==> (#[trigger] old(self).areas()[i]).end()
                    <= TRAMPOLINE_VPN,
        ensures
            final(self).wf(final(mem)@, final(pool)@),
            final(self).areas() == old(self).areas(),
            final(self).table().root() == old(self).table().root(),
            final(self).table().mapping(final(mem)@, VirtPageNum(TRAMPOLINE_VPN)) == Some(
                PageTableEntry { bits: pte_bits((strampoline / 4096) as u64, 0x0b) },
            ),
            forall|v: VirtPageNum|
                v.0 < TRAMPOLINE_VPN ==> #[trigger] final(self).table().mapping(final(mem)@, v)
                    == old(self).table().mapping(old(mem)@, v),
            final(pool)@.available() == old(pool)@.available() - old(self).table().missing_levels(
                old(mem)@,
                VirtPageNum(TRAMPOLINE_VPN),
            ),
            final(pool)@.base == old(pool)@.base,
            final(pool)@.end == old(pool)@.end,
            forall|p: u64| old(pool)@.is_allocated(p) ==> final(pool)@.is_allocated(p),
            final(mem)@.base == old(mem)@.base,
            final(mem)@.words.len() == old(mem)@.words.len(),
            final(mem)@.same_but(old(mem)@, final(self).table().nodes()),
            forall|n: u64|
                #[trigger] final(self).table().nodes().contains(n) && !old(self).table().nodes().contains(n) ==> !old(pool)@.is_allocated(n),
    {
        let ghost s0 = *self;
        let ghost m0 = mem@;
        let ghost pool0 = pool@;
        proof {
            reveal(MemorySet::wf);
            crate::address::lemma_masks(TRAMPOLINE);
            crate::address::lemma_masks(strampoline);
            vstd::arithmetic::div_mod::lemma_small_mod(
                strampoline as nat,
                0x0100_0000_0000_0000,
            );
        }
        let vpn = VirtAddr::from(TRAMPOLINE).page_number();
        let ppn = PhysAddr::from(strampoline).page_number();
        let flags = PTEFlags::of(PTEFlags::R).union(PTEFlags::of(PTEFlags::X));
        proof {
            assert(0x02u8 | 0x08u8 | 0x01u8 == 0x0bu8) by (bit_vector);
            assert(0x02u8 | 0x08u8 == 0x0au8) by (bit_vector);
            assert(0x0au8 | 0x01u8 == 0x0bu8) by (bit_vector);
        }
        self.page_table.map(vpn, ppn, flags, pool, mem);
        proof {
            let t2 = self.table();
            let m2 = mem@;
            let pool2 = pool@;
            lemma_pte_bits(ppn.0, 0x0b);
            assert(0x0bu8 & 1 == 1) by (bit_vector);
            assert forall|p: u64| #[trigger] m2.holds(p) == m0.holds(p) by {}
            assert forall|v: VirtPageNum| v.0 < TRAMPOLINE_VPN implies #[trigger] t2.mapping(m2, v)
                == s0.table().mapping(m0, v) by {
                if same_indexes(v.0, TRAMPOLINE_VPN) {
                    lemma_indexes_injective(v.0, TRAMPOLINE_VPN);
                }
            }
            assert(self.areas() == s0.areas());
            assert forall|i: int| 0 <= i < self.areas().len() implies (#[trigger] self.areas()[i]).mapped_in(
                &t2,
                m2,
                pool2,
            ) by {
                let b = s0.areas()[i];
                assert(b.mapped_in(&s0.table(), m0, pool0));
                assert forall|v: u64| b.start() <= v < b.end() implies #[trigger] t2.mapping(
                    m2,
                    VirtPageNum(v),
                ) == Some(b.entry_of(v)) by {
                    assert(s0.table().mapping(m0, VirtPageNum(v)) == Some(b.entry_of(v)));
                }
                assert forall|k: int| 0 <= k < b.frames().len() implies {
                    let f = #[trigger] b.frames()[k];
                    &&& pool2.is_allocated(f)
                    &&& m2.holds(f)
                    &&& !t2.nodes().contains(f)
                } by {
                    assert(pool0.is_allocated(b.frames()[k]));
                }
            }
        }
    }

    /// A memory that agrees on the frames of the page table, and a pool
    /// that has issued no less, leave the address space what it is.
    pub proof fn lemma_frame(
        &self,
        m1: FrameModel,
        pool1: FramePool,
        m2: FrameModel,
        pool2: FramePool,
        changed: Set<u64>,
    )
        requires
            self.wf(m1, pool1),
            m2.wf(),
            m2.same_but(m1, changed),
            forall|n: u64| changed.contains(n) ==> !self.table().nodes().contains(n),
            pool2.wf(),
            pool_in_memory(pool2, m2),
            forall|p: u64| pool1.is_allocated(p) ==> pool2.is_allocated(p),
        ensures
            self.wf(m2, pool2),
            forall|v: VirtPageNum| #[trigger]
                self.table().mapping(m2, v) == self.table().mapping(m1, v),
            forall|v: VirtPageNum| #[trigger] self.table().walk(m2, v) == self.table().walk(m1, v),
            forall|v: VirtPageNum| #[trigger]
                self.table().missing_levels(m2, v) == self.table().missing_levels(m1, v),
    {
        reveal(MemorySet::wf);
        let t = self.table();
        assert forall|n: u64| #[trigger] t.nodes().contains(n) implies pool2.is_allocated(n) by {
            assert(pool1.is_allocated(n));
        }
        t.lemma_frame(m1, pool1, m2, pool2, changed);
        assert forall|p: u64| #[trigger] m2.holds(p) == m1.holds(p) by {}
        assert forall|i: int| 0 <= i < self.areas().len() implies (#[trigger] self.areas()[i]).mapped_in(
            &t,
            m2,
            pool2,
        ) by {
            let b = self.areas()[i];
            assert(b.mapped_in(&t, m1, pool1));
            assert forall|v: u64| b.start() <= v < b.end() implies #[trigger] t.mapping(
                m2,
                VirtPageNum(v),
            ) == Some(b.entry_of(v)) by {
                assert(t.mapping(m1, VirtPageNum(v)) == Some(b.entry_of(v)));
            }
            assert forall|k: int| 0 <= k < b.frames().len() implies {
                let f = #[trigger] b.frames()[k];
                &&& pool2.is_allocated(f)
                &&& m2.holds(f)
                &&& !t.nodes().contains(f)
            } by {
                assert(pool1.is_allocated(b.frames()[k]));
            }
        }
    }

    /// The frames of the first `n` regions, in the order of the regions and,
    /// within a region, of its pages.
    pub open spec fn frames_of(&self, n: int) -> Seq<u64>
        decreases n,
    {
        if n <= 0 {
            Seq::empty()
        } else {
            self.frames_of(n - 1) + self.areas()[n - 1].frames()
        }
    }

    /// Drops the regions: their frames go back to the pool, in the order of
    /// the regions and, within a region, of its pages. The page table and
    /// what it maps stay as they are.
    pub fn clear(&mut self, pool: &mut StackFrameAllocator, mem: &PhysMemory)
        requires
            old(self).wf(mem@, old(pool)@),
        ensures
            final(self).wf(mem@, final(pool)@),
            final(self).areas().len() == 0,
            final(self).table() == old(self).table(),
            final(pool)@ == (FramePool {
                recycled: old(pool)@.recycled + old(self).frames_of(
                    old(self).areas().len() as int,
                ),
                ..old(pool)@
            }),
            forall|n: u64|
                old(self).table().nodes().contains(n) ==> #[trigger] final(pool)@.is_allocated(n),
    {
        let ghost s0 = *self;
        let ghost pool0 = pool@;
        let ghost m = mem@;
        let ghost t = self.table();
        proof {
            reveal(MemorySet::wf);
            assert(pool0.recycled + s0.frames_of(0) =~= pool0.recycled);
        }
        let count = self.map_areas.len();
        let mut i: usize = 0;
        while i < count
            invariant
                i <= count,
                count == s0.areas().len(),
                self.areas().len() == count,
                self.table() == t,
                t == s0.table(),
                m == mem@,
                m.wf(),
                pool@.wf(),
                pool_in_memory(pool@, m),
                t.wf(m, pool@),
                pool@ == (FramePool { recycled: pool0.recycled + s0.frames_of(i as int), ..pool0 }),
                forall|j: int| i <= j < count ==> #[trigger] self.areas()[j] == s0.areas()[j],
                forall|j: int|
                    i <= j < count ==> (#[trigger] s0.areas()[j]).mapped_in(&t, m, pool@),
                forall|j: int, k: int|
                    0 <= j < count && 0 <= k < count && j != k ==> areas_apart(
                        #[trigger] s0.areas()[j],
                        #[trigger] s0.areas()[k],
                    ),
                forall|n: u64| t.nodes().contains(n) ==> #[trigger] pool@.is_allocated(n),
            decreases count - i,
        {
            let ghost pool1 = pool@;
            let ghost gone = s0.areas()[i as int];
            proof {
                assert(self.areas()[i as int] == gone);
                assert(gone.mapped_in(&t, m, pool1));
            }
            self.map_areas[i].release(&self.page_table, pool, mem);
            proof {
                let pool2 = pool@;
                assert(pool2.recycled =~= pool0.recycled + s0.frames_of(i + 1));
                assert forall|n: u64| t.nodes().contains(n) implies #[trigger] pool2.is_allocated(n) by {
                    assert(pool1.is_allocated(n));
                    if gone.frames().contains(n) {
                        let k = choose|k: int| 0 <= k < gone.frames().len() && gone.frames()[k] == n;
                        assert(!t.nodes().contains(gone.frames()[k]));
                    }
                }
                t.lemma_frame(m, pool1, m, pool2, Set::empty());
                assert forall|j: int| i + 1 <= j < count implies (#[trigger] s0.areas()[j]).mapped_in(
                    &t,
                    m,
                    pool2,
                ) by {
                    let b = s0.areas()[j];
                    assert(b.mapped_in(&t, m, pool1));
                    assert(areas_apart(s0.areas()[j], s0.areas()[i as int]));
                    assert forall|k: int| 0 <= k < b.frames().len() implies {
                        let f = #[trigger] b.frames()[k];
                        &&& pool2.is_allocated(f)
                        &&& m.holds(f)
                        &&& !t.nodes().contains(f)
                    } by {
                        let f = b.frames()[k];
                        if gone.frames().contains(f) {
                            let l = choose|l: int|
                                0 <= l < gone.frames().len() && gone.frames()[l] == f;
                            assert(b.frames()[k] != gone.frames()[l]);
                        }
                    }
                }
            }
            i += 1;
        }
        self.map_areas = Vec::new();
    }

    /// Whether none of the pages from `start` up to `end` is mapped.
    pub fn range_is_free(&self, start: VirtPageNum, end: VirtPageNum, mem: &PhysMemory) -> (b: bool)
        requires
            mem@.wf(),
        ensures
            b == forall|v: u64| start.0 <= v < end.0 ==> #[trigger] self.is_free(mem@, v),
    {
        let mut cur = start.0;
        while cur < end.0
            invariant
                start.0 <= cur,
                mem@.wf(),
                forall|v: u64| start.0 <= v < cur ==> #[trigger] self.is_free(mem@, v),
            decreases end.0 - cur,
        {
            match self.page_table.translate(VirtPageNum(cur), mem) {
                None => {},
                Some(pte) => {
                    if pte.is_valid() {
                        assert(start.0 <= cur < end.0 && !self.is_free(mem@, cur));
                        return false;
                    }
                },
            }
            cur = cur + 1;
        }
        true
    }

    /// Number of frames that mapping regions like those of this address
    /// space takes at most, where the regions are no more than `0xffff`.
    pub fn frame_count(&self, mem: &PhysMemory, pool: &StackFrameAllocator) -> (n: u64)
        requires
            self.wf(mem@, pool@),
            self.areas().len() <= 0xffff,
        ensures
            n == self.areas_frames(self.areas().len() as int),
    {
        let count = self.map_areas.len();
        let mut total: u64 = 0;
        let mut i: usize = 0;
        while i < count
            invariant
                i <= count,
                count == self.areas().len(),
                count <= 0xffff,
                self.wf(mem@, pool@),
                total == self.areas_frames(i as int),
                total <= i * 0x1000_0000,
            decreases count - i,
        {
            proof {
                self.lemma_area_frames(mem@, pool@, i as int);
            }
            let more = self.map_areas[i].frame_count();
            total = total + more;
            i += 1;
        }
        total
    }

    /// The entry that the walk for `vpn` ends at, valid or not.
    pub fn translate(&self, vpn: VirtPageNum, mem: &PhysMemory) -> (pte: Option<PageTableEntry>)
        requires
            mem@.wf(),
        ensures
            pte == self.table().walk(mem@, vpn),
    {
        self.page_table.translate(vpn, mem)
    }

    /// The page table.
    pub fn page_table(&self) -> (table: &PageTable)
        ensures
            *table == self.table(),
    {
        &self.page_table
    }

    /// Number of regions.
    pub fn area_count(&self) -> (n: usize)
        ensures
            n == self.areas().len(),
    {
        self.map_areas.len()
    }

    /// The region at place `i`.
    pub fn area(&self, i: usize) -> (area: &MapArea)
        requires
            i < self.areas().len(),
        ensures
            *area == self.areas()[i as int],
    {
        &self.map_areas[i]
    }
}

} // verus!
