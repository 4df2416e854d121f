//! The pool of physical page frames: frames are issued in the order of
//! their numbers, and a frame that comes back is issued again before any
//! fresh one, the last that came back first.

use vstd::prelude::*;
use vstd::std_specs::convert::FromSpec;
use crate::address::{PhysAddr, PhysPageNum};
use crate::config::MEMORY_END;
use crate::phys_memory::{FrameModel, PhysMemory};

verus! {

/// The handle of one page frame that is in use.
pub struct FrameTracker {
    pub ppn: PhysPageNum,
}

impl FrameTracker {
    /// Takes the frame `ppn` into use: fills it with zeroes.
    pub fn new(ppn: PhysPageNum, mem: &mut PhysMemory) -> (frame: FrameTracker)
        requires
            old(mem)@.wf(),
            old(mem)@.holds(ppn.0),
        ensures
            frame.ppn == ppn,
            final(mem)@.wf(),
            final(mem)@.same_but(old(mem)@, set![ppn.0]),
            forall|i: int| 0 <= i < 512 ==> final(mem)@.word(ppn.0, i) == 0,
            forall|i: int| 0 <= i < 4096 ==> final(mem)@.byte(ppn.0, i) == 0,
    {
        mem.zero_frame(ppn);
        Self { ppn }
    }
}

/// The mathematical state of the pool: the frames from `base` up to `next`
/// have been issued, those up to `end` have never been, and `recycled` are
/// the issued frames that have come back, in the order in which they came.
pub struct FramePool {
    pub base: u64,
    pub next: u64,
    pub end: u64,
    pub recycled: Seq<u64>,
}

impl FramePool {
    /// The frame `ppn` is issued and has not come back.
    pub open spec fn is_allocated(self, ppn: u64) -> bool {
        self.base <= ppn < self.next && !self.recycled.contains(ppn)
    }

    /// Number of frames that can be issued.
    pub open spec fn available(self) -> int {
        self.recycled.len() + (self.end - self.next)
    }

    /// The frame that is issued next, where one is left.
    pub open spec fn upcoming(self) -> u64 {
        if self.recycled.len() > 0 {
            self.recycled.last()
        } else {
            self.next
        }
    }

    /// The pool after a frame has been issued.
    pub open spec fn issued(self) -> FramePool {
        if self.recycled.len() > 0 {
            FramePool { recycled: self.recycled.drop_last(), ..self }
        } else {
            FramePool { next: (self.next + 1) as u64, ..self }
        }
    }

    /// The frames that came back were issued, each comes once, and all
    /// numbers fit in 44 bits.
    pub open spec fn wf(self) -> bool {
        &&& self.base <= self.next <= self.end <= 0x1000_0000_0000
        &&& self.recycled.no_duplicates()
        &&& forall|i: int|
            0 <= i < self.recycled.len() ==> self.base <= #[trigger] self.recycled[i] < self.next
    }

    /// A frame that is issued was not allocated before and is afterwards,
    /// and no other frame changes sides.
    pub proof fn lemma_issued(self)
        requires
            self.wf(),
            self.available() > 0,
        ensures
            self.issued().wf(),
            self.issued().available() == self.available() - 1,
            !self.is_allocated(self.upcoming()),
            self.issued().is_allocated(self.upcoming()),
            self.base <= self.upcoming() < self.end,
            forall|p: u64| p != self.upcoming() ==> self.issued().is_allocated(p) == self.is_allocated(p),
    {
        if self.recycled.len() > 0 {
            let last = self.recycled.len() - 1;
            let rest = self.recycled.drop_last();
            assert(self.recycled[last] == self.upcoming());
            assert forall|p: u64| rest.contains(p) <==> (self.recycled.contains(p) && p
                != self.upcoming()) by {
                if rest.contains(p) {
                    let k = choose|k: int| 0 <= k < rest.len() && rest[k] == p;
                    assert(self.recycled[k] == p);
                }
                if self.recycled.contains(p) && p != self.upcoming() {
                    let k = choose|k: int| 0 <= k < self.recycled.len() && self.recycled[k] == p;
                    assert(rest[k] == p);
                }
            }
            assert forall|i: int| 0 <= i < rest.len() implies self.base <= #[trigger] rest[i]
                < self.next by {
                assert(rest[i] == self.recycled[i]);
            }
        } else {
            assert forall|p: u64| p != self.upcoming() implies self.issued().is_allocated(p)
                == self.is_allocated(p) by {}
        }
    }

    /// A frame that comes back is no longer allocated, and no other frame
    /// changes sides.
    pub proof fn lemma_returned(self, ppn: u64)
        requires
            self.wf(),
            self.is_allocated(ppn),
        ensures
            (FramePool { recycled: self.recycled.push(ppn), ..self }).wf(),
            (FramePool { recycled: self.recycled.push(ppn), ..self }).available()
                == self.available() + 1,
            forall|p: u64|
                (FramePool { recycled: self.recycled.push(ppn), ..self }).is_allocated(p) == (
                self.is_allocated(p) && p != ppn),
    {
        let more = self.recycled.push(ppn);
        assert forall|p: u64| more.contains(p) <==> (self.recycled.contains(p) || p == ppn) by {
            if more.contains(p) {
                let k = choose|k: int| 0 <= k < more.len() && more[k] == p;
                if k < self.recycled.len() {
                    assert(self.recycled[k] == p);
                }
            }
            if self.recycled.contains(p) {
                let k = choose|k: int| 0 <= k < self.recycled.len() && self.recycled[k] == p;
                assert(more[k] == p);
            }
            assert(more[more.len() - 1] == ppn);
        }
        assert forall|i: int, j: int|
            0 <= i < more.len() && 0 <= j < more.len() && i != j implies more[i] != more[j] by {
            if i < self.recycled.len() {
                assert(self.recycled.contains(more[i]));
            }
            if j < self.recycled.len() {
                assert(self.recycled.contains(more[j]));
            }
        }
    }
}

/// The pool of page frames.
pub struct StackFrameAllocator {
    base: u64,
    start: u64,
    end: u64,
    recycled: Vec<u64>,
}

impl View for StackFrameAllocator {
    type V = FramePool;

    closed spec fn view(&self) -> FramePool {
        FramePool { base: self.base, next: self.start, end: self.end, recycled: self.recycled@ }
    }
}

impl StackFrameAllocator {
    /// A pool without frames.
    pub fn new() -> (pool: StackFrameAllocator)
        ensures
            pool@ == (FramePool { base: 0, next: 0, end: 0, recycled: Seq::empty() }),
            pool@.wf(),
    {
        Self { base: 0, start: 0, end: 0, recycled: Vec::new() }
    }

    /// Gives the pool the frames from `start` up to `end`.
    pub fn init(&mut self, start: PhysPageNum, end: PhysPageNum)
        requires
            start.0 <= end.0 <= 0x1000_0000_0000,
        ensures
            final(self)@ == (FramePool {
                base: start.0,
                next: start.0,
                end: end.0,
                recycled: old(self)@.recycled,
            }),
            old(self)@.recycled.len() == 0 ==> final(self)@.wf(),
    {
        self.base = start.0;
        self.start = start.0;
        self.end = end.0;
    }

    /// Number of frames that can be issued.
    pub fn available(&self) -> (n: u64)
        requires
            self@.wf(),
        ensures
            n == self@.available(),
    {
        proof {
            self@.recycled.unique_seq_to_set();
            lemma_bounded_distinct(self@.recycled, self@.base, self@.next);
        }
        self.recycled.len() as u64 + (self.end - self.start)
    }

    /// Whether the frame `ppn` is issued and has not come back.
    pub fn is_allocated(&self, ppn: PhysPageNum) -> (b: bool)
        ensures
            b == self@.is_allocated(ppn.0),
    {
        if ppn.0 < self.base || ppn.0 >= self.start {
            return false;
        }
        let mut i: usize = 0;
        while i < self.recycled.len()
            invariant
                i <= self.recycled@.len(),
                forall|j: int| 0 <= j < i ==> self.recycled@[j] != ppn.0,
            decreases self.recycled@.len() - i,
        {
            if self.recycled[i] == ppn.0 {
                return false;
            }
            i += 1;
        }
        true
    }

    /// Issues a frame: the one that came back last, else the next fresh
    /// one; `None` where no frame is left.
    pub fn allocate(&mut self) -> (ppn: Option<PhysPageNum>)
        requires
            old(self)@.wf(),
        ensures
            final(self)@.wf(),
            match ppn {
                None => old(self)@.available() == 0 && final(self)@ == old(self)@,
                Some(p) => {
                    &&& old(self)@.available() > 0
                    &&& p.0 == old(self)@.upcoming()
                    &&& final(self)@ == old(self)@.issued()
                },
            },
    {
        let ghost pool = self@;
        if self.recycled.len() > 0 {
            proof {
                pool.lemma_issued();
                assert(pool.recycled[pool.recycled.len() - 1] == pool.upcoming());
            }
            let ppn = self.recycled.pop().unwrap();
            proof {
                crate::address::lemma_masks(ppn);
                vstd::arithmetic::div_mod::lemma_small_mod(ppn as nat, 0x1000_0000_0000);
            }
            Some(PhysPageNum::from(ppn))
        } else {
            if self.start == self.end {
                None
            } else {
                proof {
                    pool.lemma_issued();
                }
                self.start += 1;
                let ppn = self.start - 1;
                proof {
                    crate::address::lemma_masks(ppn);
                    vstd::arithmetic::div_mod::lemma_small_mod(ppn as nat, 0x1000_0000_0000);
                }
                Some(PhysPageNum::from(ppn))
            }
        }
    }

    /// Takes the frame `ppn` back.
    pub fn dealloc(&mut self, ppn: PhysPageNum)
        requires
            old(self)@.wf(),
            old(self)@.is_allocated(ppn.0),
        ensures
            final(self)@ == (FramePool {
                recycled: old(self)@.recycled.push(ppn.0),
                ..old(self)@
            }),
            final(self)@.wf(),
    {
        proof {
            self@.lemma_returned(ppn.0);
        }
        // recycle
        self.recycled.push(ppn.0);
    }
}

/// Distinct numbers of a range are no more than the range holds.
pub proof fn lemma_bounded_distinct(s: Seq<u64>, lo: u64, hi: u64)
    requires
        s.no_duplicates(),
        lo <= hi,
        forall|i: int| 0 <= i < s.len() ==> lo <= #[trigger] s[i] < hi,
    ensures
        s.len() <= hi - lo,
    decreases hi - lo,
{
    if s.len() > 0 {
        if hi == lo {
            assert(lo <= s[0] < hi);
        } else {
            let top = (hi - 1) as u64;
            if s.contains(top) {
                let at = s.index_of(top);
                let rest = s.remove(at);
                assert forall|i: int| 0 <= i < rest.len() implies lo <= #[trigger] rest[i]
                    < top by {
                    let ii = if i < at { i } else { i + 1 };
                    assert(rest[i] == s[ii]);
                    assert(s[ii] != s[at]);
                }
                assert(rest.no_duplicates()) by {
                    assert forall|i: int, j: int|
                        0 <= i < rest.len() && 0 <= j < rest.len() && i != j implies rest[i]
                        != rest[j] by {
                        let ii = if i < at { i } else { i + 1 };
                        let jj = if j < at { j } else { j + 1 };
                        assert(rest[i] == s[ii] && rest[j] == s[jj]);
                    }
                }
                lemma_bounded_distinct(rest, lo, top);
            } else {
                assert forall|i: int| 0 <= i < s.len() implies lo <= #[trigger] s[i] < top by {
                    assert(s.contains(s[i]));
                }
                lemma_bounded_distinct(s, lo, top);
            }
        }
    }
}

/// Gives the pool the frames between the end of the kernel image and the
/// end of the physical memory.
pub fn init_frame_allocator(pool: &mut StackFrameAllocator, ekernel: u64)
    requires
        ekernel <= MEMORY_END,
    ensures
        final(pool)@ == (FramePool {
            base: ((ekernel + 4095) / 4096) as u64,
            next: ((ekernel + 4095) / 4096) as u64,
            end: 0x88000,
            recycled: old(pool)@.recycled,
        }),
        old(pool)@.recycled.len() == 0 ==> final(pool)@.wf(),
{
    proof {
        crate::address::lemma_masks(ekernel);
        crate::address::lemma_masks(MEMORY_END);
        vstd::arithmetic::div_mod::lemma_small_mod(ekernel as nat, 0x0100_0000_0000_0000);
        vstd::arithmetic::div_mod::lemma_small_mod(MEMORY_END as nat, 0x0100_0000_0000_0000);
    }
    pool.init(PhysAddr::from(ekernel).ceil(), PhysAddr::from(MEMORY_END).floor());
}

/// Issues a frame and takes it into use, filled with zeroes; `None` where
/// the pool has no frame left.
pub fn frame_alloc(pool: &mut StackFrameAllocator, mem: &mut PhysMemory) -> (frame: Option<FrameTracker>)
    requires
        old(pool)@.wf(),
        old(mem)@.wf(),
        forall|p: u64| old(pool)@.base <= p < old(pool)@.end ==> old(mem)@.holds(p),
    ensures
        final(pool)@.wf(),
        final(mem)@.wf(),
        match frame {
            None => {
                &&& old(pool)@.available() == 0
                &&& final(pool)@ == old(pool)@
                &&& final(mem)@ == old(mem)@
            },
            Some(f) => {
                &&& old(pool)@.available() > 0
                &&& f.ppn.0 == old(pool)@.upcoming()
                &&& final(pool)@ == old(pool)@.issued()
                &&& final(mem)@.same_but(old(mem)@, set![f.ppn.0])
                &&& forall|i: int| 0 <= i < 512 ==> final(mem)@.word(f.ppn.0, i) == 0
                &&& forall|i: int| 0 <= i < 4096 ==> final(mem)@.byte(f.ppn.0, i) == 0
            },
        },
{
    proof {
        if pool@.available() > 0 {
            pool@.lemma_issued();
        }
    }
    match pool.allocate() {
        None => None,
        Some(ppn) => Some(FrameTracker::new(ppn, mem)),
    }
}

/// Takes the frame `ppn` back into the pool.
pub fn frame_dealloc(pool: &mut StackFrameAllocator, ppn: PhysPageNum)
    requires
        old(pool)@.wf(),
        old(pool)@.is_allocated(ppn.0),
    ensures
        final(pool)@ == (FramePool { recycled: old(pool)@.recycled.push(ppn.0), ..old(pool)@ }),
        final(pool)@.wf(),
{
    pool.dealloc(ppn);
}

} // verus!
