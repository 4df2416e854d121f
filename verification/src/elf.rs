//! What an address space needs to know of an ELF image: the entry point and
//! the program headers, as plain values.

use vstd::prelude::*;
use crate::map_area::{span_frame_count, span_frames};

verus! {

/// A program header.
#[derive(Copy, Clone, PartialEq, Eq, Structural, Debug)]
pub struct ProgramHeader {
    /// Whether the segment is to be loaded.
    pub load: bool,
    /// First virtual address of the segment.
    pub virtual_addr: u64,
    /// Bytes of the segment in memory.
    pub mem_size: u64,
    /// Place of the segment's bytes in the file.
    pub offset: u64,
    /// Bytes of the segment in the file.
    pub file_size: u64,
    /// Whether the segment can be read.
    pub read: bool,
    /// Whether the segment can be written.
    pub write: bool,
    /// Whether the segment can be executed.
    pub execute: bool,
}

impl ProgramHeader {
    /// Number of the first page of the segment.
    pub open spec fn first_page(&self) -> u64 {
        self.virtual_addr / 4096
    }

    /// Number of the page that the segment ends before.
    pub open spec fn end_page(&self) -> u64 {
        ((self.virtual_addr + self.mem_size + 4095) / 4096) as u64
    }

    /// The permission of the pages of the segment: that of user mode, and
    /// what the header allows.
    pub open spec fn perm(&self) -> u8 {
        let u = 0x10u8;
        let r = if self.read { u | 0x02u8 } else { u };
        let w = if self.write { r | 0x04u8 } else { r };
        if self.execute { w | 0x08u8 } else { w }
    }

    /// The page `v` is a page of the segment.
    pub open spec fn has_page(&self, v: u64) -> bool {
        self.load && self.first_page() <= v < self.end_page()
    }

    /// The segment lies in the lower half of the address space, below the
    /// trap context page, has a page, and its bytes in the file, which are
    /// no more than its pages hold, lie within `len` bytes.
    pub open spec fn fits(&self, len: nat) -> bool {
        self.load ==> {
            &&& self.virtual_addr + self.mem_size <= 0x3f_ffff_ffff
            &&& self.first_page() < self.end_page()
            &&& self.offset + self.file_size <= len
            &&& self.file_size <= (self.end_page() - self.first_page()) * 4096
        }
    }

    /// Number of frames that loading the segment takes at most.
    pub open spec fn frames_needed(&self) -> int {
        if self.load {
            span_frames(self.first_page(), self.end_page()) + (self.end_page() - self.first_page())
        } else {
            0
        }
    }
}

impl ProgramHeader {
    /// Whether the segment fits in a file of `len` bytes and in the lower
    /// half of the address space.
    pub fn check(&self, len: usize) -> (b: bool)
        ensures
            b == self.fits(len as nat),
    {
        if !self.load {
            return true;
        }
        if self.mem_size > 0x3f_ffff_ffff || self.virtual_addr > 0x3f_ffff_ffff - self.mem_size {
            return false;
        }
        let first = self.virtual_addr / 4096;
        let end = (self.virtual_addr + self.mem_size + 4095) / 4096;
        if first >= end {
            return false;
        }
        if self.file_size > (end - first) * 4096 {
            return false;
        }
        if self.offset > u64::MAX - self.file_size {
            return false;
        }
        (self.offset + self.file_size) as u128 <= len as u128
    }

    /// Number of frames that loading the segment takes at most.
    pub fn frame_count(&self) -> (n: u64)
        requires
            self.load ==> self.virtual_addr + self.mem_size <= 0x3f_ffff_ffff,
        ensures
            n == self.frames_needed(),
            n <= 0x800_0000,
    {
        if self.load {
            let first = self.virtual_addr / 4096;
            let end = (self.virtual_addr + self.mem_size + 4095) / 4096;
            if first <= end {
                span_frame_count(first, end) + (end - first)
            } else {
                0
            }
        } else {
            0
        }
    }

    /// Whether the segment and `other` have a page in common.
    pub fn overlaps(&self, other: &ProgramHeader) -> (b: bool)
        requires
            self.load ==> self.virtual_addr + self.mem_size <= 0x3f_ffff_ffff,
            other.load ==> other.virtual_addr + other.mem_size <= 0x3f_ffff_ffff,
        ensures
            b == exists|v: u64| self.has_page(v) && other.has_page(v),
    {
        if !self.load || !other.load {
            return false;
        }
        let first = self.virtual_addr / 4096;
        let end = (self.virtual_addr + self.mem_size + 4095) / 4096;
        let other_first = other.virtual_addr / 4096;
        let other_end = (other.virtual_addr + other.mem_size + 4095) / 4096;
        let low = if first >= other_first { first } else { other_first };
        let high = if end <= other_end { end } else { other_end };
        if low < high {
            assert(self.has_page(low) && other.has_page(low));
            true
        } else {
            false
        }
    }
}

/// The entry point and the program headers of an ELF image.
pub struct ElfImage {
    pub entry: u64,
    pub headers: Vec<ProgramHeader>,
}

/// The page `v` is a page of one of the first `n` segments.
pub open spec fn covered(headers: Seq<ProgramHeader>, n: int, v: u64) -> bool {
    exists|j: int| 0 <= j < n && j < headers.len() && #[trigger] headers[j].has_page(v)
}

/// The places of the segments to be loaded among the first `n` headers, in
/// order.
pub open spec fn loads(headers: Seq<ProgramHeader>, n: int) -> Seq<int>
    decreases n,
{
    if n <= 0 {
        Seq::empty()
    } else if headers[n - 1].load {
        loads(headers, n - 1).push(n - 1)
    } else {
        loads(headers, n - 1)
    }
}

/// Number of frames that loading the first `n` segments takes at most.
pub open spec fn segments_frames(headers: Seq<ProgramHeader>, n: int) -> int
    decreases n,
{
    if n <= 0 {
        0
    } else {
        segments_frames(headers, n - 1) + headers[n - 1].frames_needed()
    }
}

/// Number of the page that the last of the first `n` segments to be loaded
/// ends before, and 0 where none is to be loaded.
pub open spec fn last_end(headers: Seq<ProgramHeader>, n: int) -> u64
    decreases n,
{
    if n <= 0 {
        0
    } else if headers[n - 1].load {
        headers[n - 1].end_page()
    } else {
        last_end(headers, n - 1)
    }
}

/// The frames that the first segments take are no more than those that
/// more segments take.
pub proof fn lemma_segments_frames(headers: Seq<ProgramHeader>, a: int, b: int, len: nat)
    requires
        0 <= a <= b <= headers.len(),
        forall|i: int| 0 <= i < headers.len() ==> (#[trigger] headers[i]).fits(len),
    ensures
        segments_frames(headers, a) <= segments_frames(headers, b),
        a < b ==> segments_frames(headers, a) + headers[a].frames_needed() <= segments_frames(
            headers,
            b,
        ),
    decreases b - a,
{
    if a < b {
        lemma_segments_frames(headers, a, b - 1, len);
        assert(headers[b - 1].fits(len));
        assert(headers[b - 1].frames_needed() >= 0);
    }
}

impl ElfImage {
    /// Number of the first page of the user stack: one page above the last
    /// segment.
    pub open spec fn stack_page(&self) -> u64 {
        (last_end(self.headers@, self.headers@.len() as int) + 1) as u64
    }

    /// The segments fit, no two of them share a page, and the two pages of
    /// the user stack lie above the last segment, apart from all segments
    /// and below the trap context page.
    pub open spec fn fits(&self, len: nat) -> bool {
        &&& forall|i: int| 0 <= i < self.headers@.len() ==> (#[trigger] self.headers@[i]).fits(len)
        &&& forall|i: int, j: int, v: u64|
            0 <= i < j < self.headers@.len() && #[trigger] self.headers@[i].has_page(v)
                ==> !#[trigger] self.headers@[j].has_page(v)
        &&& self.stack_page() + 2 <= 0x3ff_ffff
        &&& forall|i: int, v: u64|
            0 <= i < self.headers@.len() && self.stack_page() <= v < self.stack_page() + 2
                ==> !#[trigger] self.headers@[i].has_page(v)
    }

    /// Number of frames that the address space of the image takes at most:
    /// those of the page table's root, of the trampoline, of the segments, of
    /// the user stack and of the trap context.
    pub open spec fn frames_needed(&self) -> int {
        3 + segments_frames(self.headers@, self.headers@.len() as int) + span_frames(
            self.stack_page(),
            (self.stack_page() + 2) as u64,
        ) + 2 + span_frames(0x7ff_fffe, 0x7ff_ffff) + 1
    }
}

} // verus!

verus! {

impl ElfImage {
    /// Number of the page that the last segment to be loaded ends before.
    fn last_end_page(&self) -> (end: u64)
        requires
            forall|i: int|
                0 <= i < self.headers@.len() && (#[trigger] self.headers@[i]).load
                    ==> self.headers@[i].virtual_addr + self.headers@[i].mem_size
                    <= 0x3f_ffff_ffff,
        ensures
            end == last_end(self.headers@, self.headers@.len() as int),
            end <= 0x400_0000,
    {
        let mut end: u64 = 0;
        let mut i: usize = 0;
        while i < self.headers.len()
            invariant
                i <= self.headers@.len(),
                end == last_end(self.headers@, i as int),
                end <= 0x400_0000,
                forall|k: int|
                    0 <= k < self.headers@.len() && (#[trigger] self.headers@[k]).load
                        ==> self.headers@[k].virtual_addr + self.headers@[k].mem_size
                        <= 0x3f_ffff_ffff,
            decreases self.headers@.len() - i,
        {
            let h = self.headers[i];
            if h.load {
                end = (h.virtual_addr + h.mem_size + 4095) / 4096;
            }
            i += 1;
        }
        end
    }

    /// Whether the image fits in a file of `len` bytes: its segments fit, no
    /// two of them share a page, and the user stack has its place.
    pub fn check(&self, len: usize) -> (b: bool)
        ensures
            b == self.fits(len as nat),
    {
        let n = self.headers.len();
        let mut i: usize = 0;
        while i < n
            invariant
                i <= n,
                n == self.headers@.len(),
                forall|k: int| 0 <= k < i ==> (#[trigger] self.headers@[k]).fits(len as nat),
            decreases n - i,
        {
            if !self.headers[i].check(len) {
                return false;
            }
            i += 1;
        }
        let mut j: usize = 0;
        while j < n
            invariant
                j <= n,
                n == self.headers@.len(),
                forall|k: int| 0 <= k < n ==> (#[trigger] self.headers@[k]).fits(len as nat),
                forall|a: int, b: int, v: u64|
                    0 <= a < b < j && #[trigger] self.headers@[a].has_page(v)
                        ==> !#[trigger] self.headers@[b].has_page(v),
            decreases n - j,
        {
            let mut k: usize = 0;
            while k < j
                invariant
                    k <= j < n,
                    n == self.headers@.len(),
                    forall|c: int| 0 <= c < n ==> (#[trigger] self.headers@[c]).fits(len as nat),
                    forall|a: int, v: u64|
                        0 <= a < k && #[trigger] self.headers@[a].has_page(v)
                            ==> !self.headers@[j as int].has_page(v),
                decreases j - k,
            {
                assert(self.headers@[k as int].fits(len as nat));
                assert(self.headers@[j as int].fits(len as nat));
                if self.headers[k].overlaps(&self.headers[j]) {
                    proof {
                        let v = choose|v: u64|
                            self.headers@[k as int].has_page(v) && self.headers@[j as int].has_page(
                                v,
                            );
                        assert(self.headers@[k as int].has_page(v));
                    }
                    return false;
                }
                k += 1;
            }
            j += 1;
        }
        let last = self.last_end_page();
        let stack = last + 1;
        if stack + 2 > 0x3ff_ffff {
            return false;
        }
        let mut i: usize = 0;
        while i < n
            invariant
                i <= n,
                n == self.headers@.len(),
                stack == self.stack_page(),
                stack + 2 <= 0x3ff_ffff,
                forall|k: int| 0 <= k < n ==> (#[trigger] self.headers@[k]).fits(len as nat),
                forall|k: int, v: u64|
                    0 <= k < i && stack <= v < stack + 2 ==> !#[trigger] self.headers@[k].has_page(v),
            decreases n - i,
        {
            let h = self.headers[i];
            assert(self.headers@[i as int].fits(len as nat));
            if h.load {
                let first = h.virtual_addr / 4096;
                let end = (h.virtual_addr + h.mem_size + 4095) / 4096;
                if first < stack + 2 && stack < end {
                    proof {
                        let v = if first >= stack { first } else { stack };
                        assert(self.headers@[i as int].has_page(v));
                    }
                    return false;
                }
            }
            i += 1;
        }
        true
    }

    /// Number of frames that the address space of the image takes at most.
    pub fn frame_count(&self) -> (n: u64)
        requires
            exists|len: nat| self.fits(len),
            self.headers@.len() <= 0xffff,
        ensures
            n == self.frames_needed(),
    {
        let ghost len = choose|len: nat| self.fits(len);
        let count = self.headers.len();
        let mut total: u64 = 0;
        let mut i: usize = 0;
        while i < count
            invariant
                i <= count,
                count == self.headers@.len(),
                count <= 0xffff,
                self.fits(len),
                total == segments_frames(self.headers@, i as int),
                total <= i * 0x800_0000,
            decreases count - i,
        {
            let h = self.headers[i];
            assert(self.headers@[i as int].fits(len));
            let more = h.frame_count();
            total = total + more;
            i += 1;
        }
        assert forall|k: int| 0 <= k < self.headers@.len() && (#[trigger] self.headers@[k]).load implies self.headers@[k].virtual_addr
            + self.headers@[k].mem_size <= 0x3f_ffff_ffff by {
            assert(self.headers@[k].fits(len));
        }
        let last = self.last_end_page();
        let stack = last + 1;
        3 + total + span_frame_count(stack, stack + 2) + 2 + span_frame_count(0x7ff_fffe, 0x7ff_ffff)
            + 1
    }
}

} // verus!
