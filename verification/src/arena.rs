//! The heap's backing store: a run of machine words that stands at a fixed
//! base address. Free-list links live inside it, at the addresses of the free
//! blocks themselves, so the allocators need no storage of their own.

use vstd::prelude::*;
use crate::config::{ARENA_LIMIT, WORD_SIZE};

verus! {

/// The mathematical content of an arena: where it starts and what each of
/// its words holds.
pub struct ArenaModel {
    pub base: usize,
    pub words: Seq<usize>,
}

impl ArenaModel {
    /// Number of bytes spanned.
    pub open spec fn size(self) -> int {
        8 * (self.words.len() as int)
    }

    /// First address past the arena.
    pub open spec fn end(self) -> int {
        self.base + self.size()
    }

    /// The base is a non-null word-aligned address and the span stays within
    /// the limit, so that no address in it overflows.
    pub open spec fn wf(self) -> bool {
        &&& self.base > 0
        &&& self.base % 8 == 0
        &&& self.size() <= ARENA_LIMIT
        &&& self.end() <= usize::MAX
    }

    /// `addr` is the address of one of the arena's words.
    pub open spec fn holds(self, addr: usize) -> bool {
        &&& addr % 8 == 0
        &&& self.base <= addr < self.end()
    }

    /// The byte range `[addr, addr + len)` lies inside the arena.
    pub open spec fn holds_range(self, addr: int, len: int) -> bool {
        self.base <= addr && addr + len <= self.end()
    }

    /// Index of the word at `addr`.
    pub open spec fn slot(self, addr: usize) -> int {
        (addr - self.base) / 8
    }

    /// The word stored at `addr`.
    pub open spec fn word(self, addr: usize) -> usize
        recommends
            self.holds(addr),
    {
        self.words[self.slot(addr)]
    }

    /// The arena after `val` has been stored at `addr`.
    pub open spec fn store(self, addr: usize, val: usize) -> ArenaModel
        recommends
            self.holds(addr),
    {
        ArenaModel { base: self.base, words: self.words.update(self.slot(addr), val) }
    }

    /// Same extent as `other`, and the same words outside the byte range
    /// `[lo, hi)`.
    pub open spec fn agrees_outside(self, other: ArenaModel, lo: int, hi: int) -> bool {
        &&& self.base == other.base
        &&& self.words.len() == other.words.len()
        &&& forall|a: usize|
            #[trigger] other.holds(a) && !(lo <= a < hi) ==> self.word(a) == other.word(a)
    }

    /// Every word of `other` is a word of this arena, with the same content,
    /// and this arena spans what `other` spans.
    pub open spec fn extends(self, other: ArenaModel) -> bool {
        &&& other.words.len() > 0 ==> self.base <= other.base && other.end() <= self.end()
        &&& forall|a: usize| #[trigger]
            other.holds(a) ==> self.holds(a) && self.word(a) == other.word(a)
    }

    /// The least arena that spans this one and the words from `start` up to
    /// `end`: it keeps the words of this arena, and its other words are zero.
    /// An arena without words has no place, so it spans the range alone.
    pub open spec fn hull(self, start: int, end: int) -> ArenaModel {
        let base = if self.words.len() == 0 || start < self.base {
            start
        } else {
            self.base as int
        };
        let last = if self.words.len() == 0 || end > self.end() {
            end
        } else {
            self.end()
        };
        ArenaModel {
            base: base as usize,
            words: Seq::new(
                ((last - base) / 8) as nat,
                |j: int|
                    if self.holds((base + 8 * j) as usize) {
                        self.word((base + 8 * j) as usize)
                    } else {
                        0
                    },
            ),
        }
    }

    /// The arena after the whole words of the byte range `[start, end)` have
    /// joined it.
    pub open spec fn grown(self, start: int, end: int) -> ArenaModel {
        let s = if start % 8 == 0 {
            start
        } else {
            start + 8 - start % 8
        };
        let e = end - end % 8;
        if s < e {
            self.hull(s, e)
        } else {
            self
        }
    }

    /// The hull of an arena and a range of words extends the arena and spans
    /// the range.
    pub proof fn lemma_hull(self, start: int, end: int)
        requires
            self.wf(),
            0 < start < end <= usize::MAX,
            start % 8 == 0,
            end % 8 == 0,
        ensures
            self.hull(start, end).extends(self),
            self.hull(start, end).base % 8 == 0,
            self.hull(start, end).base > 0,
            self.hull(start, end).base <= start,
            end <= self.hull(start, end).end() <= usize::MAX,
            self.hull(start, end).size() <= ARENA_LIMIT ==> self.hull(start, end).wf(),
    {
        let h = self.hull(start, end);
        let base = h.base as int;
        let last = if self.words.len() == 0 || end > self.end() {
            end
        } else {
            self.end()
        };
        assert((last - base) % 8 == 0);
        assert(h.words.len() == (last - base) / 8);
        assert(h.end() == last);
        assert forall|a: usize| #[trigger] self.holds(a) implies h.holds(a) && h.word(a)
            == self.word(a) by {
            let j = (a - base) / 8;
            assert(base + 8 * j == a);
            assert(0 <= j < h.words.len());
            assert(h.slot(a) == j);
        }
    }

    /// Storing at one address leaves every other word as it was.
    pub proof fn lemma_store(self, addr: usize, val: usize)
        requires
            self.holds(addr),
        ensures
            self.store(addr, val).base == self.base,
            self.store(addr, val).size() == self.size(),
            self.store(addr, val).wf() == self.wf(),
            self.store(addr, val).word(addr) == val,
            forall|a: usize| #[trigger]
                self.store(addr, val).holds(a) == self.holds(a),
            forall|a: usize|
                self.holds(a) && a != addr ==> #[trigger] self.store(addr, val).word(a)
                    == self.word(a),
    {
        assert forall|a: usize| self.holds(a) && a != addr implies #[trigger] self.store(
            addr,
            val,
        ).word(a) == self.word(a) by {
            assert(self.slot(a) != self.slot(addr));
        }
    }
}

/// A word-addressed arena.
pub struct Arena {
    base: usize,
    words: Vec<usize>,
}

impl View for Arena {
    type V = ArenaModel;

    closed spec fn view(&self) -> ArenaModel {
        ArenaModel { base: self.base, words: self.words@ }
    }
}

impl Arena {
    /// An arena of `size / 8` zeroed words whose first word has address
    /// `base`.
    pub fn new(base: usize, size: usize) -> (arena: Arena)
        requires
            base > 0,
            base % 8 == 0,
            size <= ARENA_LIMIT,
            base + size <= usize::MAX,
        ensures
            arena@.wf(),
            arena@.base == base,
            arena@.words.len() == size / 8,
            forall|i: int| 0 <= i < arena@.words.len() ==> arena@.words[i] == 0,
    {
        let n: usize = size / WORD_SIZE;
        let mut words: Vec<usize> = Vec::new();
        let mut i: usize = 0;
        while i < n
            invariant
                i <= n,
                words@.len() == i,
                forall|j: int| 0 <= j < i ==> words@[j] == 0,
            decreases n - i,
        {
            words.push(0);
            i += 1;
        }
        Arena { base, words }
    }

    /// Makes the arena span the words from `start` up to `end` too. The
    /// words that it had keep their addresses and their content; the new
    /// words are zero.
    pub fn cover(&mut self, start: usize, end: usize)
        requires
            old(self)@.wf(),
            0 < start < end,
            start % 8 == 0,
            end % 8 == 0,
            old(self)@.hull(start as int, end as int).size() <= ARENA_LIMIT,
        ensures
            final(self)@ == old(self)@.hull(start as int, end as int),
            final(self)@.wf(),
            final(self)@.extends(old(self)@),
    {
        let ghost m0 = self@;
        proof {
            m0.lemma_hull(start as int, end as int);
        }
        let count: usize = self.words.len();
        let first: usize = self.base;
        let base: usize = if count == 0 || start < first {
            start
        } else {
            first
        };
        let last: usize = if count == 0 || end > first + count * WORD_SIZE {
            end
        } else {
            first + count * WORD_SIZE
        };
        let n: usize = (last - base) / WORD_SIZE;
        let mut words: Vec<usize> = Vec::new();
        let mut i: usize = 0;
        while i < n
            invariant
                i <= n,
                n == (last - base) / 8,
                base <= last,
                base % 8 == 0,
                count == self.words@.len(),
                count == m0.words.len(),
                first == self.base,
                first == m0.base,
                self@ == m0,
                m0.wf(),
                words@.len() == i,
                forall|j: int|
                    0 <= j < i ==> words@[j] == (if m0.holds((base + 8 * j) as usize) {
                        m0.word((base + 8 * j) as usize)
                    } else {
                        0
                    }),
            decreases n - i,
        {
            let addr: usize = base + i * WORD_SIZE;
            let word: usize = if addr >= first && addr - first < count * WORD_SIZE {
                proof {
                    assert(m0.holds(addr));
                }
                self.words[(addr - first) / WORD_SIZE]
            } else {
                0
            };
            words.push(word);
            i += 1;
        }
        self.base = base;
        self.words = words;
        proof {
            assert(self@.words =~= m0.hull(start as int, end as int).words);
        }
    }

    /// Address of the first word.
    pub fn base(&self) -> (b: usize)
        ensures
            b == self@.base,
    {
        self.base
    }

    /// Number of bytes spanned.
    pub fn size(&self) -> (n: usize)
        requires
            self@.wf(),
        ensures
            n == self@.size(),
    {
        self.words.len() * WORD_SIZE
    }

    /// Whether `addr` is the address of one of the arena's words.
    pub fn holds(&self, addr: usize) -> (b: bool)
        requires
            self@.wf(),
        ensures
            b == self@.holds(addr),
    {
        addr % WORD_SIZE == 0 && addr >= self.base && addr - self.base < self.words.len()
            * WORD_SIZE
    }

    /// The word stored at `addr`.
    pub fn read(&self, addr: usize) -> (val: usize)
        requires
            self@.wf(),
            self@.holds(addr),
        ensures
            val == self@.word(addr),
    {
        self.words[(addr - self.base) / WORD_SIZE]
    }

    /// Stores `val` at `addr`.
    pub fn write(&mut self, addr: usize, val: usize)
        requires
            old(self)@.wf(),
            old(self)@.holds(addr),
        ensures
            final(self)@ == old(self)@.store(addr, val),
            final(self)@.wf(),
    {
        let i: usize = (addr - self.base) / WORD_SIZE;
        self.words.set(i, val);
    }
}

} // verus!
