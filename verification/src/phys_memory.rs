//! The physical memory that page tables and address spaces live in: whole
//! page frames of 512 words each, found by their page number.

use vstd::prelude::*;
use crate::address::PhysPageNum;

verus! {

/// Byte `k` of the word `w`, the lowest byte being byte 0.
pub open spec fn byte_of(w: u64, k: u64) -> u8 {
    ((w >> (8 * k)) & 0xff) as u8
}

/// The word `w` with `b` in place of its byte `k`.
pub open spec fn with_byte(w: u64, k: u64, b: u8) -> u64 {
    (w & !(0xffu64 << (8 * k))) | ((b as u64) << (8 * k))
}

/// A byte that is put into a word is found there, and the other bytes stay.
pub proof fn lemma_with_byte(w: u64, k: u64, b: u8, j: u64)
    requires
        k < 8,
        j < 8,
    ensures
        byte_of(with_byte(w, k, b), j) == (if j == k {
            b
        } else {
            byte_of(w, j)
        }),
        byte_of(0, j) == 0,
{
    assert(k < 8 && j < 8 ==> (((((w & !(0xffu64 << (8 * k))) | ((b as u64) << (8 * k))) >> (8
        * j)) & 0xff) as u8) == (if j == k {
        b
    } else {
        ((w >> (8 * j)) & 0xff) as u8
    })) by (bit_vector);
    assert(j < 8 ==> ((0u64 >> (8 * j)) & 0xff) as u8 == 0u8) by (bit_vector);
}

/// The mathematical content of the memory: the number of its first frame
/// and the words of all frames in order.
pub struct FrameModel {
    pub base: u64,
    pub words: Seq<u64>,
}

impl FrameModel {
    /// Number of frames.
    pub open spec fn frames(self) -> int {
        self.words.len() as int / 512
    }

    /// The memory is made of whole frames whose numbers fit in 44 bits.
    pub open spec fn wf(self) -> bool {
        &&& self.words.len() == self.frames() * 512
        &&& self.base + self.frames() <= 0x1000_0000_0000
    }

    /// The memory has the frame `ppn`.
    pub open spec fn holds(self, ppn: u64) -> bool {
        self.base <= ppn < self.base + self.frames()
    }

    /// Word `idx` of the frame `ppn`.
    pub open spec fn word(self, ppn: u64, idx: int) -> u64 {
        self.words[(ppn - self.base) * 512 + idx]
    }

    /// Byte `off` of the frame `ppn`.
    pub open spec fn byte(self, ppn: u64, off: int) -> u8 {
        byte_of(self.word(ppn, off / 8), (off % 8) as u64)
    }

    /// The words of the frame `ppn`.
    pub open spec fn frame(self, ppn: u64) -> Seq<u64> {
        Seq::new(512, |i: int| self.word(ppn, i))
    }

    /// The bytes of the frame `ppn`.
    pub open spec fn page(self, ppn: u64) -> Seq<u8> {
        Seq::new(4096, |i: int| self.byte(ppn, i))
    }

    /// The memory with `val` as word `idx` of the frame `ppn`.
    pub open spec fn store(self, ppn: u64, idx: int, val: u64) -> FrameModel {
        FrameModel {
            base: self.base,
            words: self.words.update((ppn - self.base) * 512 + idx, val),
        }
    }

    /// The same frames, with the same words in each frame but those of
    /// `changed`.
    pub open spec fn same_but(self, other: FrameModel, changed: Set<u64>) -> bool {
        &&& self.base == other.base
        &&& self.words.len() == other.words.len()
        &&& forall|p: u64, i: int|
            other.holds(p) && !changed.contains(p) && 0 <= i < 512 ==> #[trigger] self.word(p, i)
                == other.word(p, i)
    }

    /// A store changes one word of one frame.
    pub proof fn lemma_store(self, ppn: u64, idx: int, val: u64)
        requires
            self.wf(),
            self.holds(ppn),
            0 <= idx < 512,
        ensures
            self.store(ppn, idx, val).wf(),
            self.store(ppn, idx, val).base == self.base,
            self.store(ppn, idx, val).words.len() == self.words.len(),
            self.store(ppn, idx, val).word(ppn, idx) == val,
            forall|p: u64| #[trigger] self.store(ppn, idx, val).holds(p) == self.holds(p),
            forall|p: u64, i: int|
                self.holds(p) && 0 <= i < 512 && !(p == ppn && i == idx) ==> #[trigger] self.store(
                    ppn,
                    idx,
                    val,
                ).word(p, i) == self.word(p, i),
    {
    }
}

/// Page frames.
pub struct PhysMemory {
    base: u64,
    words: Vec<u64>,
}

impl View for PhysMemory {
    type V = FrameModel;

    closed spec fn view(&self) -> FrameModel {
        FrameModel { base: self.base, words: self.words@ }
    }
}

impl PhysMemory {
    /// `count` zeroed frames, of which the first has the number `base`.
    pub fn new(base: PhysPageNum, count: usize) -> (mem: PhysMemory)
        requires
            base.0 + count <= 0x1000_0000_0000,
            count * 512 <= usize::MAX,
        ensures
            mem@.wf(),
            mem@.base == base.0,
            mem@.frames() == count,
            forall|i: int| 0 <= i < mem@.words.len() ==> mem@.words[i] == 0,
    {
        let n: usize = count * 512;
        let mut words: Vec<u64> = Vec::new();
        let mut i: usize = 0;
        while i < n
            invariant
                i <= n,
                words@.len() == i,
                forall|j: int| 0 <= j < i ==> words@[j] == 0,
            decreases n - i,
        {
            words.push(0);
            i += 1;
        }
        PhysMemory { base: base.0, words }
    }

    /// Whether the memory has the frame `ppn`.
    pub fn holds(&self, ppn: PhysPageNum) -> (b: bool)
        requires
            self@.wf(),
        ensures
            b == self@.holds(ppn.0),
    {
        ppn.0 >= self.base && ppn.0 - self.base < (self.words.len() / 512) as u64
    }

    /// Place of word `idx` of the frame `ppn` among all words.
    fn slot(&self, ppn: PhysPageNum, idx: usize) -> (at: usize)
        requires
            self@.wf(),
            self@.holds(ppn.0),
            idx < 512,
        ensures
            at == (ppn.0 - self@.base) * 512 + idx,
            at < self@.words.len(),
    {
        let ghost count = self@.frames();
        let len = self.words.len();
        assert(count * 512 == len);
        assert(ppn.0 - self.base < count);
        assert((ppn.0 - self.base) * 512 + idx < count * 512) by (nonlinear_arith)
            requires
                ppn.0 - self.base < count,
                idx < 512,
        ;
        let frame = (ppn.0 - self.base) as usize;
        frame * 512 + idx
    }

    /// Word `idx` of the frame `ppn`: an entry of a page table that stands
    /// in that frame.
    pub fn read_word(&self, ppn: PhysPageNum, idx: usize) -> (val: u64)
        requires
            self@.wf(),
            self@.holds(ppn.0),
            idx < 512,
        ensures
            val == self@.word(ppn.0, idx as int),
    {
        let at = self.slot(ppn, idx);
        self.words[at]
    }

    /// Stores `val` as word `idx` of the frame `ppn`.
    pub fn write_word(&mut self, ppn: PhysPageNum, idx: usize, val: u64)
        requires
            old(self)@.wf(),
            old(self)@.holds(ppn.0),
            idx < 512,
        ensures
            final(self)@ == old(self)@.store(ppn.0, idx as int, val),
            final(self)@.wf(),
    {
        let at = self.slot(ppn, idx);
        self.words.set(at, val);
    }

    /// Byte `off` of the frame `ppn`.
    pub fn read_byte(&self, ppn: PhysPageNum, off: usize) -> (val: u8)
        requires
            self@.wf(),
            self@.holds(ppn.0),
            off < 4096,
        ensures
            val == self@.byte(ppn.0, off as int),
    {
        let w = self.read_word(ppn, off / 8);
        let k = (off % 8) as u64;
        ((w >> (8 * k)) & 0xff) as u8
    }

    /// Stores `val` as byte `off` of the frame `ppn`.
    pub fn write_byte(&mut self, ppn: PhysPageNum, off: usize, val: u8)
        requires
            old(self)@.wf(),
            old(self)@.holds(ppn.0),
            off < 4096,
        ensures
            final(self)@.wf(),
            final(self)@.same_but(old(self)@, set![ppn.0]),
            final(self)@.page(ppn.0) == old(self)@.page(ppn.0).update(off as int, val),
    {
        let ghost m0 = self@;
        let w = self.read_word(ppn, off / 8);
        let k = (off % 8) as u64;
        let updated = (w & !(0xffu64 << (8 * k))) | ((val as u64) << (8 * k));
        self.write_word(ppn, off / 8, updated);
        proof {
            m0.lemma_store(ppn.0, (off / 8) as int, updated);
            assert forall|i: int| 0 <= i < 4096 implies self@.page(ppn.0)[i] == m0.page(
                ppn.0,
            ).update(off as int, val)[i] by {
                if i / 8 == off / 8 {
                    lemma_with_byte(w, k, val, (i % 8) as u64);
                }
            }
            assert(self@.page(ppn.0) =~= m0.page(ppn.0).update(off as int, val));
        }
    }

    /// Fills the frame `ppn` with zeroes.
    pub fn zero_frame(&mut self, ppn: PhysPageNum)
        requires
            old(self)@.wf(),
            old(self)@.holds(ppn.0),
        ensures
            final(self)@.wf(),
            final(self)@.same_but(old(self)@, set![ppn.0]),
            forall|i: int| 0 <= i < 512 ==> final(self)@.word(ppn.0, i) == 0,
            forall|i: int| 0 <= i < 4096 ==> final(self)@.byte(ppn.0, i) == 0,
    {
        let ghost m0 = self@;
        let mut i: usize = 0;
        while i < 512
            invariant
                i <= 512,
                m0.wf(),
                m0.holds(ppn.0),
                self@.wf(),
                self@.same_but(m0, set![ppn.0]),
                forall|j: int| 0 <= j < i ==> self@.word(ppn.0, j) == 0,
            decreases 512 - i,
        {
            let ghost m = self@;
            self.write_word(ppn, i, 0);
            proof {
                m.lemma_store(ppn.0, i as int, 0);
            }
            i += 1;
        }
        proof {
            assert forall|j: int| 0 <= j < 4096 implies self@.byte(ppn.0, j) == 0 by {
                lemma_with_byte(0, 0, 0, (j % 8) as u64);
            }
        }
    }

    /// Copies the frame `src` to the frame `dst`.
    pub fn copy_frame(&mut self, dst: PhysPageNum, src: PhysPageNum)
        requires
            old(self)@.wf(),
            old(self)@.holds(dst.0),
            old(self)@.holds(src.0),
        ensures
            final(self)@.wf(),
            final(self)@.same_but(old(self)@, set![dst.0]),
            final(self)@.frame(dst.0) == old(self)@.frame(src.0),
            final(self)@.page(dst.0) == old(self)@.page(src.0),
    {
        let ghost m0 = self@;
        let mut i: usize = 0;
        while i < 512
            invariant
                i <= 512,
                m0.wf(),
                m0.holds(dst.0),
                m0.holds(src.0),
                self@.wf(),
                self@.same_but(m0, set![dst.0]),
                forall|j: int| 0 <= j < i ==> self@.word(dst.0, j) == m0.word(src.0, j),
                dst.0 == src.0 ==> self@ == m0,
            decreases 512 - i,
        {
            let ghost m = self@;
            let w = self.read_word(src, i);
            self.write_word(dst, i, w);
            proof {
                m.lemma_store(dst.0, i as int, w);
                if dst.0 == src.0 {
                    assert(self@.words =~= m0.words);
                }
            }
            i += 1;
        }
        proof {
            assert(self@.frame(dst.0) =~= m0.frame(src.0));
            assert(self@.page(dst.0) =~= m0.page(src.0));
        }
    }
}

} // verus!
