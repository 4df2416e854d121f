//! A buddy allocator over an [`Arena`]: free blocks are powers of two in
//! size, kept in one intrusive list per size class; a request splits the
//! smallest block that fits, and a block that comes back is joined with its
//! buddy as long as the buddy is free.

use vstd::prelude::*;
use vstd::arithmetic::power2::{lemma_pow2_pos, pow2};
use crate::arena::{Arena, ArenaModel};
use crate::bits::{
    block_size, buddy_addr, buddy_of, ceil_log2, lemma_ceil_log2_monotone, lemma_ceil_log2_pow2,
    lemma_low_zeros, lemma_low_zeros_pow2, lemma_pow2_monotone, lemma_pow2_rank, low_zeros,
    next_power_of_two, trailing_zeros,
};
use crate::buddy_model::{
    apart, class_bytes, class_rank, coalesce, free_bytes, is_power_of_two,
    lemma_first_fit, lemma_free_bytes_lower, lemma_free_bytes_same, lemma_free_bytes_update,
    has_bit, lemma_absorb_buddy, lemma_add_block, lemma_live_push, lemma_low_bits_clear,
    lemma_region_step, region_aligned, region_state, round_down, round_up, lemma_live_remove, lemma_release, lemma_split_once,
    lemma_user_le_class, parent_of, split_once, user_bytes, without, BuddyModel, LiveBlock,
};
use crate::config::{ARENA_LIMIT, RANKS};
use crate::linked_list::{lemma_linked_agree, lemma_linked_frame, link_at, LinkedList};

verus! {

/// The allocator's bookkeeping. The blocks themselves, and the links between
/// free ones, are in the arena that every operation takes.
pub struct BuddyAllocator {
    free_list: Vec<LinkedList>,
    unit: usize,
    user: usize,
    allocated: usize,
    total: usize,
    live: Ghost<Seq<LiveBlock>>,
}

impl View for BuddyAllocator {
    type V = BuddyModel;

    closed spec fn view(&self) -> BuddyModel {
        BuddyModel {
            free: Seq::new(self.free_list@.len(), |r: int| self.free_list@[r]@),
            live: self.live@,
            unit_rank: ceil_log2(self.unit as nat),
        }
    }
}

impl BuddyAllocator {
    /// Size of the smallest block that is handed out.
    pub closed spec fn unit(&self) -> usize {
        self.unit
    }

    /// Bytes that were asked for and are not yet given back.
    pub closed spec fn user(&self) -> usize {
        self.user
    }

    /// Bytes of the blocks that are handed out.
    pub closed spec fn allocated(&self) -> usize {
        self.allocated
    }

    /// Bytes that were ever added to the heap.
    pub closed spec fn total(&self) -> usize {
        self.total
    }

    /// Each free list is threaded through `m`.
    pub closed spec fn threaded(&self, m: ArenaModel) -> bool {
        &&& self.free_list@.len() == 32
        &&& forall|r: int| 0 <= r < 32 ==> (#[trigger] self.free_list@[r]).wf(m)
    }

    /// The allocator is sound with respect to the arena `m`: the lists are
    /// threaded through it, no two blocks overlap, and the counters say what
    /// the blocks add up to.
    pub open spec fn wf(&self, m: ArenaModel) -> bool {
        &&& self.threaded(m)
        &&& is_power_of_two(self.unit() as nat)
        &&& self@.unit_rank == ceil_log2(self.unit() as nat)
        &&& self@.inv(m)
        &&& self.allocated() == class_bytes(self@.live)
        &&& self.user() == user_bytes(self@.live)
        &&& self.allocated() + free_bytes(self@.free, 32) == self.total()
    }

    /// The size class that a request of `size` bytes aligned to `align` is
    /// served from.
    pub open spec fn rank_for(&self, size: usize, align: usize) -> nat {
        class_rank(size as nat, align as nat, self.unit() as nat)
    }

    /// A free block exists that the request can be carved from.
    pub open spec fn fits(&self, size: usize, align: usize) -> bool {
        &&& self.rank_for(size, align) < 32
        &&& self@.first_fit(self.rank_for(size, align) as int) < 32
    }

    /// Create an empty heap that hands out blocks of at least `unit` bytes.
    pub fn empty(unit: usize) -> (heap: BuddyAllocator)
        requires
            is_power_of_two(unit as nat),
            8 <= unit <= ARENA_LIMIT,
        ensures
            heap.unit() == unit,
            heap.user() == 0,
            heap.allocated() == 0,
            heap.total() == 0,
            heap@.live.len() == 0,
            heap@.free.len() == 32,
            forall|r: int| 0 <= r < 32 ==> heap@.free[r].len() == 0,
            forall|m: ArenaModel| m.wf() ==> heap.wf(m),
    {
        let mut free_list: Vec<LinkedList> = Vec::new();
        let mut i: usize = 0;
        while i < RANKS
            invariant
                i <= 32,
                free_list@.len() == i,
                forall|r: int| 0 <= r < i ==> (#[trigger] free_list@[r])@.len() == 0,
                forall|r: int, m: ArenaModel| 0 <= r < i ==> #[trigger] free_list@[r].wf(m),
            decreases 32 - i,
        {
            free_list.push(LinkedList::new());
            i += 1;
        }
        let heap = BuddyAllocator {
            free_list,
            unit,
            user: 0,
            allocated: 0,
            total: 0,
            live: Ghost(Seq::empty()),
        };
        proof {
            vstd::arithmetic::power2::lemma2_to64();
            lemma_ceil_log2_monotone(8, unit as nat);
            lemma_ceil_log2_monotone(unit as nat, pow2(31));
            lemma_ceil_log2_pow2(3);
            lemma_ceil_log2_pow2(31);
            lemma_free_bytes_same(heap@.free, Seq::new(32, |r: int| Seq::<usize>::empty()), 32);
            lemma_free_bytes_zero(32);
            assert forall|m: ArenaModel| m.wf() implies heap.wf(m) by {
                assert(heap@.well_placed(m));
                assert(heap@.separated());
            }
        }
        heap
    }

    /// The size class of a request.
    fn rank_of(&self, size: usize, align: usize) -> (rank: usize)
        requires
            is_power_of_two(self.unit() as nat),
            8 <= self.unit() <= ARENA_LIMIT,
            is_power_of_two(align as nat),
            size <= ARENA_LIMIT,
            align <= ARENA_LIMIT,
        ensures
            rank == self.rank_for(size, align),
            3 <= rank < 32,
            ceil_log2(self.unit() as nat) <= rank,
            size <= pow2(rank as nat),
    {
        let a = next_power_of_two(size);
        let b = if align >= self.unit { align } else { self.unit };
        let class = if a >= b { a } else { b };
        proof {
            vstd::arithmetic::power2::lemma2_to64();
            let cs = ceil_log2(size as nat);
            let ca = ceil_log2(align as nat);
            let cu = ceil_log2(self.unit as nat);
            crate::bits::lemma_ceil_log2(size as nat);
            lemma_ceil_log2_monotone(align as nat, pow2(31));
            lemma_ceil_log2_monotone(self.unit as nat, pow2(31));
            lemma_ceil_log2_monotone(8, self.unit as nat);
            lemma_ceil_log2_pow2(31);
            lemma_ceil_log2_pow2(3);
            lemma_ceil_log2_pow2(cs);
            if align >= self.unit {
                lemma_ceil_log2_monotone(self.unit as nat, align as nat);
            } else {
                lemma_ceil_log2_monotone(align as nat, self.unit as nat);
            }
            if a >= b {
                lemma_ceil_log2_monotone(b as nat, a as nat);
            } else {
                lemma_ceil_log2_monotone(a as nat, b as nat);
            }
            let big: nat = if size >= align && size >= self.unit {
                size as nat
            } else if align >= self.unit {
                align as nat
            } else {
                self.unit as nat
            };
            // the class is the least power of two that is no less than `big`
            lemma_ceil_log2_monotone(size as nat, big);
            lemma_ceil_log2_monotone(b as nat, big);
            lemma_ceil_log2_monotone(big, class as nat);
            assert(ceil_log2(class as nat) == ceil_log2(big));
            assert(class == pow2(ceil_log2(class as nat)));
            lemma_low_zeros_pow2(ceil_log2(big));
            lemma_pow2_monotone(cs, ceil_log2(big));
        }
        trailing_zeros(class)
    }

    /// Whether a free block exists that a request of `size` bytes aligned to
    /// `align` can be carved from.
    pub fn can_alloc(&self, mem: &Arena, size: usize, align: usize) -> (b: bool)
        requires
            mem@.wf(),
            self.wf(mem@),
            is_power_of_two(align as nat),
        ensures
            b == self.fits(size, align),
    {
        proof {
            self.lemma_unit_bounds(mem@);
        }
        if size > ARENA_LIMIT || align > ARENA_LIMIT {
            proof {
                vstd::arithmetic::power2::lemma2_to64();
                let big: nat = if size >= align && size >= self.unit {
                    size as nat
                } else if align >= self.unit {
                    align as nat
                } else {
                    self.unit as nat
                };
                crate::bits::lemma_ceil_log2(big);
                if ceil_log2(big) < 32 {
                    lemma_pow2_monotone(ceil_log2(big), 31);
                }
            }
            return false;
        }
        let level = self.rank_of(size, align);
        let mut i: usize = level;
        while i < RANKS
            invariant
                level <= i <= 32,
                level == self.rank_for(size, align),
                self.threaded(mem@),
                self@.free.len() == 32,
                self@.first_fit(level as int) == self@.first_fit(i as int),
            decreases 32 - i,
        {
            assert(self@.free[i as int] == self.free_list@[i as int]@);
            if !self.free_list[i].is_empty() {
                return true;
            }
            i += 1;
        }
        false
    }

    /// The byte range `[lo, hi)` meets no block, free or live.
    pub open spec fn clear_of(&self, lo: int, hi: int) -> bool {
        &&& forall|a: usize, r: int| #[trigger]
            self@.is_free(a, r) ==> a + pow2(r as nat) <= lo || hi <= a
        &&& forall|j: int|
            0 <= j < self@.live.len() ==> (#[trigger] self@.live[j]).addr + pow2(
                self@.live[j].rank,
            ) <= lo || hi <= self@.live[j].addr
    }

    /// Add a range of memory [start, end) to the heap. The range is first
    /// narrowed to whole units; what is left is cut into one block for each
    /// bit of its length, smallest block first.
    pub fn add_to_heap(&mut self, mem: &mut Arena, start: usize, end: usize)
        requires
            old(mem)@.wf(),
            old(self).wf(old(mem)@),
            old(mem)@.base <= start <= end <= old(mem)@.end(),
            old(self).clear_of(start as int, end as int),
            old(self).total() + (end - start) <= usize::MAX,
        ensures
            final(mem)@.wf(),
            final(self).wf(final(mem)@),
            final(self)@.live == old(self)@.live,
            final(self).unit() == old(self).unit(),
            final(self).user() == old(self).user(),
            final(self).allocated() == old(self).allocated(),
            ({
                let s = round_up(start as int, old(self).unit() as int);
                let e = round_down(end as int, old(self).unit() as int);
                if s < e {
                    &&& final(self)@.free == region_state(
                        old(self)@.free,
                        s,
                        (e - s) as nat,
                        32,
                    )
                    &&& final(self).total() == old(self).total() + (e - s)
                    &&& final(mem)@.agrees_outside(old(mem)@, s, e)
                    &&& (old(self)@.aligned() && region_aligned(s, (e - s) as nat) ==> final(self)@.aligned())
                } else {
                    &&& final(self)@ == old(self)@
                    &&& final(self).total() == old(self).total()
                    &&& final(mem)@ == old(mem)@
                }
            }),
            forall|x: int|
                final(self)@.holds(x) == (old(self)@.holds(x) || round_up(
                    start as int,
                    old(self).unit() as int,
                ) <= x < round_down(end as int, old(self).unit() as int)),
    {
        proof {
            self.lemma_unit_bounds(mem@);
        }
        let unit = self.unit;
        proof {
            vstd::arithmetic::div_mod::lemma_mod_decreases(end as nat, unit as nat);
        }
        let e: usize = end - end % unit;
        if start >= e {
            proof {
                vstd::arithmetic::div_mod::lemma_mod_bound(start as int, unit as int);
            }
            return ;
        }
        let rem = start % unit;
        proof {
            // the next multiple of the unit above `start` is at most `e`
            let q = start as int / unit as int;
            let qe = end as int / unit as int;
            vstd::arithmetic::div_mod::lemma_fundamental_div_mod(start as int, unit as int);
            vstd::arithmetic::div_mod::lemma_fundamental_div_mod(end as int, unit as int);
            assert(q < qe) by (nonlinear_arith)
                requires
                    start == unit * q + rem,
                    e == unit * qe,
                    start < e,
                    0 <= rem < unit,
            ;
            assert(unit * (q + 1) <= unit * qe) by (nonlinear_arith)
                requires
                    q + 1 <= qe,
                    unit > 0,
            ;
            assert(unit * (q + 1) == unit * q + unit) by (nonlinear_arith);
        }
        let s: usize = if rem == 0 { start } else { start + (unit - rem) };
        if s >= e {
            return ;
        }
        let ghost g0 = self@;
        let ghost m0 = mem@;
        let ghost len = (e - s) as nat;
        let ghost u = g0.unit_rank;
        proof {
            let q = start as int / unit as int;
            let qe = end as int / unit as int;
            let qs = if rem == 0 { q } else { q + 1 };
            vstd::arithmetic::div_mod::lemma_fundamental_div_mod(start as int, unit as int);
            vstd::arithmetic::div_mod::lemma_fundamental_div_mod(end as int, unit as int);
            assert(unit * (q + 1) == unit * q + unit) by (nonlinear_arith);
            assert(len == (qe - qs) * unit) by (nonlinear_arith)
                requires
                    s == unit * qs,
                    e == unit * qe,
                    len == e - s,
            ;
            vstd::arithmetic::div_mod::lemma_mod_multiples_basic(qe - qs, unit as int);
            lemma_low_bits_clear(len, u);
            assert(self@.free =~= region_state(g0.free, s as int, len, u));
            assert(s as int % (pow2(u) as int) == 0) by {
                assert(s == qs * unit) by (nonlinear_arith)
                    requires
                        s == unit * qs,
                ;
                vstd::arithmetic::div_mod::lemma_mod_multiples_basic(qs, unit as int);
            }
        }
        self.total = self.total + (e - s);
        let mut cur: usize = s;
        let ghost mut k: nat = u;
        while cur < e
            invariant
                s <= cur <= e,
                s < e,
                len == e - s,
                u <= k <= 32,
                u == g0.unit_rank,
                g0.free.len() == 32,
                cur == s + len % pow2(k),
                cur < e ==> k < 32,
                cur as int % (pow2(u) as int) == 0,
                m0.wf(),
                m0.base <= s,
                e <= m0.end(),
                mem@.wf(),
                self.threaded(mem@),
                self@.inv(mem@),
                self@.unit_rank == u,
                self@.live == g0.live,
                self@.free == region_state(g0.free, s as int, len, k),
                free_bytes(self@.free, 32) == free_bytes(g0.free, 32) + len % pow2(k),
                forall|a: usize, r: int| #[trigger]
                    self@.is_free(a, r) ==> g0.is_free(a, r) || (s <= a && a + pow2(r as nat)
                        <= cur),
                forall|a: usize, r: int| #[trigger]
                    g0.is_free(a, r) ==> a + pow2(r as nat) <= s || e <= a,
                forall|j: int|
                    0 <= j < g0.live.len() ==> (#[trigger] g0.live[j]).addr + pow2(
                        g0.live[j].rank,
                    ) <= s || e <= g0.live[j].addr,
                mem@.agrees_outside(m0, s as int, e as int),
                g0.aligned() && region_aligned(s as int, len) ==> self@.aligned(),
                self.unit == old(self).unit,
                self.user == old(self).user,
                self.allocated == old(self).allocated,
                self.total == old(self).total + len,
            decreases e - cur,
        {
            let ghost g = self@;
            let ghost m = mem@;
            let ghost lists = self.free_list@;
            let level = trailing_zeros(e - cur);
            proof {
                assert forall|r: int| 0 <= r < 32 implies g.free[r] == (#[trigger] lists[r])@ by {}
                lemma_region_push(g0, g, m, s, e, k, cur, level as nat);
            }
            self.free_list[level].push(mem, cur);
            let size = block_size(level);
            proof {
                let lists2 = self.free_list@;
                let m2 = mem@;
                let val = link_at(lists[level as int]@, 0);
                m.lemma_store(cur, val);
                assert forall|r: int| 0 <= r < 32 implies (#[trigger] lists2[r]).wf(m2) by {
                    if r != level {
                        assert(lists2[r] == lists[r]);
                        lemma_linked_frame(m, lists[r]@, cur, val);
                    }
                }
                assert(self@.free =~= g.free.update(
                    level as int,
                    seq![cur] + g.free[level as int],
                ));
                assert(m2.agrees_outside(m0, s as int, e as int)) by {
                    assert forall|a: usize| #[trigger] m0.holds(a) && !(s <= a < e) implies m2.word(
                        a,
                    ) == m0.word(a) by {
                        assert(m.holds(a));
                    }
                }
                k = (level + 1) as nat;
            }
            cur = cur + size;
        }
        proof {
            lemma_region_done(g0.free, s as int, len, k);
            assert forall|x: int|
                self@.holds(x) == (old(self)@.holds(x) || round_up(
                    start as int,
                    old(self).unit() as int,
                ) <= x < round_down(end as int, old(self).unit() as int)) by {
                crate::buddy_laws::lemma_region_law(g0, s as int, len, x);
            }
        }
    }

    /// Add a range of memory [start, start+size) to the heap
    pub fn init(&mut self, mem: &mut Arena, start: usize, size: usize)
        requires
            old(mem)@.wf(),
            old(self).wf(old(mem)@),
            old(mem)@.base <= start,
            start + size <= old(mem)@.end(),
            old(self).clear_of(start as int, start + size),
            old(self).total() + size <= usize::MAX,
        ensures
            final(mem)@.wf(),
            final(self).wf(final(mem)@),
            final(self)@.live == old(self)@.live,
            final(self).unit() == old(self).unit(),
            final(self).user() == old(self).user(),
            final(self).allocated() == old(self).allocated(),
            ({
                let s = round_up(start as int, old(self).unit() as int);
                let e = round_down(start + size, old(self).unit() as int);
                if s < e {
                    &&& final(self)@.free == region_state(
                        old(self)@.free,
                        s,
                        (e - s) as nat,
                        32,
                    )
                    &&& final(self).total() == old(self).total() + (e - s)
                    &&& final(mem)@.agrees_outside(old(mem)@, s, e)
                    &&& (old(self)@.aligned() && region_aligned(s, (e - s) as nat) ==> final(self)@.aligned())
                } else {
                    &&& final(self)@ == old(self)@
                    &&& final(self).total() == old(self).total()
                    &&& final(mem)@ == old(mem)@
                }
            }),
            forall|x: int|
                final(self)@.holds(x) == (old(self)@.holds(x) || round_up(
                    start as int,
                    old(self).unit() as int,
                ) <= x < round_down(start + size, old(self).unit() as int)),
    {
        self.add_to_heap(mem, start, start + size);
    }

    /// Create a new heap over the range [start, end) of the arena.
    pub fn new(unit: usize, mem: &mut Arena, start: usize, end: usize) -> (heap: BuddyAllocator)
        requires
            is_power_of_two(unit as nat),
            8 <= unit <= ARENA_LIMIT,
            old(mem)@.wf(),
            old(mem)@.base <= start <= end <= old(mem)@.end(),
        ensures
            final(mem)@.wf(),
            heap.wf(final(mem)@),
            heap@.live.len() == 0,
            heap.unit() == unit,
            heap.user() == 0,
            heap.allocated() == 0,
            ({
                let s = round_up(start as int, unit as int);
                let e = round_down(end as int, unit as int);
                if s < e {
                    &&& heap@.free == region_state(
                        Seq::new(32, |r: int| Seq::<usize>::empty()),
                        s,
                        (e - s) as nat,
                        32,
                    )
                    &&& heap.total() == e - s
                    &&& final(mem)@.agrees_outside(old(mem)@, s, e)
                    &&& (region_aligned(s, (e - s) as nat) ==> heap@.canonical())
                } else {
                    &&& forall|r: int| 0 <= r < 32 ==> heap@.free[r].len() == 0
                    &&& heap.total() == 0
                    &&& final(mem)@ == old(mem)@
                }
            }),
            forall|x: int|
                heap@.holds(x) == (round_up(start as int, unit as int) <= x < round_down(
                    end as int,
                    unit as int,
                )),
    {
        let mut heap = BuddyAllocator::empty(unit);
        proof {
            assert forall|x: int| !heap@.holds(x) by {
                if heap@.covers_free(x) {
                    let (a, r) = choose|a: usize, r: int|
                        #[trigger] heap@.is_free(a, r) && crate::buddy_laws::inside(
                            x,
                            a as int,
                            r as nat,
                        );
                    assert(heap@.free[r].len() == 0);
                }
            }
            assert forall|r: int| 0 <= r < 32 implies heap@.free[r] == Seq::<usize>::empty() by {
                assert(heap@.free[r] =~= Seq::<usize>::empty());
            }
            assert(heap@.free =~= Seq::new(32, |r: int| Seq::<usize>::empty()));
            assert(heap@.aligned());
        }
        heap.add_to_heap(mem, start, end);
        proof {
            let s = round_up(start as int, unit as int);
            let e = round_down(end as int, unit as int);
            if s < e {
                crate::buddy_laws::lemma_region_no_pairs(heap@, s, (e - s) as nat);
            }
        }
        heap
    }

    /// Splits the first block of class `end` down to class `start`: each
    /// class from `end - 1` down to `start` gets the upper half of what is
    /// split, and class `start` the lower half in front of it.
    fn split(&mut self, mem: &mut Arena, start: usize, end: usize)
        requires
            old(mem)@.wf(),
            old(self).wf(old(mem)@),
            old(self)@.unit_rank <= start <= end < 32,
            old(self)@.free[end as int].len() > 0,
            forall|r: int| start <= r < end ==> old(self)@.free[r].len() == 0,
        ensures
            final(mem)@.wf(),
            final(self).wf(final(mem)@),
            final(self)@.free == split_state(old(self)@.free, start as int, end as int),
            final(self)@.live == old(self)@.live,
            final(self).unit() == old(self).unit(),
            final(self).user() == old(self).user(),
            final(self).allocated() == old(self).allocated(),
            final(self).total() == old(self).total(),
            final(mem)@.agrees_outside(
                old(mem)@,
                old(self)@.free[end as int][0] as int,
                old(self)@.free[end as int][0] + pow2(end as nat),
            ),
            old(self)@.aligned() ==> final(self)@.aligned(),
    {
        let ghost g0 = self@;
        let ghost m0 = mem@;
        let ghost top = g0.free[end as int][0];
        let mut j: usize = end;
        assert(self@.free =~= split_state(g0.free, end as int, end as int));
        while j > start
            invariant
                start <= j <= end < 32,
                g0.unit_rank <= start,
                g0.free.len() == 32,
                g0.free[end as int].len() > 0,
                top == g0.free[end as int][0],
                forall|r: int| start <= r < end ==> g0.free[r].len() == 0,
                mem@.wf(),
                self.wf(mem@),
                self@.free == split_state(g0.free, j as int, end as int),
                self@.live == g0.live,
                self@.unit_rank == g0.unit_rank,
                self.unit == old(self).unit,
                self.user == old(self).user,
                self.allocated == old(self).allocated,
                self.total == old(self).total,
                mem@.agrees_outside(m0, top as int, top + pow2(end as nat)),
                g0.aligned() ==> self@.aligned(),
            decreases j,
        {
            let ghost g = self@;
            let ghost m = mem@;
            let ghost lists = self.free_list@;
            proof {
                lemma_split_once(g, m, j as int);
                lemma_pow2_rank(j as nat);
                lemma_pow2_rank((j - 1) as nat);
                lemma_pow2_monotone(j as nat, end as nat);
                assert forall|r: int| 0 <= r < 32 implies g.free[r] == (#[trigger] lists[r])@ by {}
                assert(g.free[j as int][0] == top);
            }
            let popped = self.free_list[j].pop(mem);
            let ptr = popped.unwrap();
            let half = block_size(j - 1);
            let upper = ptr + half;
            let ghost lists1 = self.free_list@;
            proof {
                assert forall|r: int| 0 <= r < 32 && r != j - 1 implies !(#[trigger] lists1[r])@.contains(
                    upper,
                ) && !lists1[r]@.contains(ptr) && lists1[r].wf(m) by {
                    if r == j {
                        let rest = lists1[r]@;
                        assert(rest == g.free[r].drop_first());
                        assert(g.free[r].no_duplicates());
                        if rest.contains(upper) {
                            let k = choose|k: int| 0 <= k < rest.len() && rest[k] == upper;
                            assert(g.free[r][k + 1] == upper);
                        }
                        if rest.contains(ptr) {
                            let k = choose|k: int| 0 <= k < rest.len() && rest[k] == ptr;
                            assert(g.free[r][k + 1] == ptr);
                        }
                    } else {
                        assert(lists1[r] == lists[r]);
                    }
                }
                assert(lists1[j - 1] == lists[j - 1]);
            }
            self.free_list[j - 1].push(mem, upper);
            let ghost m1 = mem@;
            let ghost lists2 = self.free_list@;
            proof {
                m.lemma_store(upper, link_at(lists1[j - 1]@, 0));
                assert forall|r: int| 0 <= r < 32 && r != j - 1 implies (#[trigger] lists2[r]).wf(
                    m1,
                ) by {
                    assert(lists2[r] == lists1[r]);
                    lemma_linked_frame(m, lists1[r]@, upper, link_at(lists1[j - 1]@, 0));
                }
                let low2 = lists2[j - 1]@;
                assert(!low2.contains(ptr)) by {
                    if low2.contains(ptr) {
                        let k = choose|k: int| 0 <= k < low2.len() && low2[k] == ptr;
                        assert(k > 0);
                        assert(lists1[j - 1]@[k - 1] == ptr);
                    }
                }
            }
            self.free_list[j - 1].push(mem, ptr);
            proof {
                let lists3 = self.free_list@;
                let m2 = mem@;
                m1.lemma_store(ptr, link_at(lists2[j - 1]@, 0));
                assert forall|r: int| 0 <= r < 32 implies (#[trigger] lists3[r]).wf(m2) by {
                    if r != j - 1 {
                        assert(lists3[r] == lists2[r]);
                        lemma_linked_frame(m1, lists2[r]@, ptr, link_at(lists2[j - 1]@, 0));
                    }
                }
                let g2 = split_once(g, j as int);
                assert(lists3[j - 1]@ =~= seq![ptr, upper] + g.free[j - 1]);
                assert(self@.free =~= g2.free);
                assert(self@ == g2);
                assert(self@.free =~= split_state(g0.free, j - 1, end as int)) by {
                    assert forall|r: int| 0 <= r < 32 implies self@.free[r] == split_state(
                        g0.free,
                        j - 1,
                        end as int,
                    )[r] by {
                        if r == j - 1 {
                            assert(g.free[r] == g0.free[r]);
                            assert(g.free[r].len() == 0);
                            assert(g2.free[r] =~= seq![ptr, upper]);
                        } else if r == j {
                            if j == end {
                            } else {
                                assert(g.free[r] == seq![top, (top + pow2(r as nat)) as usize]);
                                assert(g2.free[r] =~= seq![(top + pow2(r as nat)) as usize]);
                            }
                        }
                    }
                }
                assert(m2.agrees_outside(m0, top as int, top + pow2(end as nat))) by {
                    assert forall|a: usize| #[trigger]
                        m0.holds(a) && !(top <= a < top + pow2(end as nat)) implies m2.word(a)
                        == m0.word(a) by {
                        assert(m.holds(a));
                        assert(m1.holds(a));
                    }
                }
            }
            j = j - 1;
        }
    }

    /// Takes the first free block of class `level` for a request of `size`
    /// bytes.
    fn take_first(&mut self, mem: &Arena, level: usize, size: usize) -> (addr: usize)
        requires
            mem@.wf(),
            old(self).wf(mem@),
            old(self)@.unit_rank <= level < 32,
            old(self)@.free[level as int].len() > 0,
            size <= pow2(level as nat),
        ensures
            final(self).wf(mem@),
            addr == old(self)@.free[level as int][0],
            final(self)@.free == old(self)@.free.update(
                level as int,
                old(self)@.free[level as int].drop_first(),
            ),
            final(self)@.live == old(self)@.live.push(
                LiveBlock { addr, rank: level as nat, size: size as nat },
            ),
            final(self).unit() == old(self).unit(),
            final(self).user() == old(self).user() + size,
            final(self).allocated() == old(self).allocated() + pow2(level as nat),
            final(self).total() == old(self).total(),
            old(self)@.aligned() ==> final(self)@.aligned() && addr as nat % pow2(level as nat)
                == 0,
    {
        let ghost g1 = self@;
        let ghost lists1 = self.free_list@;
        proof {
            assert forall|r: int| 0 <= r < 32 implies g1.free[r] == (#[trigger] lists1[r])@ by {}
        }
        let popped = self.free_list[level].pop(mem);
        let result = popped.unwrap();
        proof {
            let lists2 = self.free_list@;
            let block = LiveBlock { addr: result, rank: level as nat, size: size as nat };
            self.live@ = g1.live.push(block);
            assert(self@.free =~= g1.free.update(level as int, g1.free[level as int].drop_first()));
            lemma_take_block(g1, mem@, level as int, size as nat);
            lemma_live_push(g1.live, block);
            lemma_free_bytes_update(g1.free, level as int, g1.free[level as int].drop_first(), 32);
            lemma_free_bytes_lower(g1.free, level as int, 32);
            lemma_pow2_rank(level as nat);
            lemma_user_le_class(g1.live);
            assert((g1.free[level as int].len() - 1 - g1.free[level as int].len()) * pow2(
                level as nat,
            ) == -pow2(level as nat)) by (nonlinear_arith);
            assert forall|r: int| 0 <= r < 32 implies (#[trigger] lists2[r]).wf(mem@) by {
                if r != level {
                    assert(lists2[r] == lists1[r]);
                }
            }
        }
        self.user = self.user + size;
        self.allocated = self.allocated + block_size(level);
        result
    }

    /// Alloc a range of memory from the heap: `size` bytes aligned to
    /// `align`. Returns the address of the block.
    pub fn allocate(&mut self, mem: &mut Arena, size: usize, align: usize) -> (addr: usize)
        requires
            old(mem)@.wf(),
            old(self).wf(old(mem)@),
            is_power_of_two(align as nat),
            old(self).fits(size, align),
        ensures
            final(mem)@.wf(),
            final(self).wf(final(mem)@),
            addr == old(self)@.free[old(self)@.first_fit(old(self).rank_for(size, align) as int)][0],
            final(self)@.free == old(self)@.carve(old(self).rank_for(size, align) as int),
            final(self)@.live == old(self)@.live.push(
                LiveBlock { addr, rank: old(self).rank_for(size, align), size: size as nat },
            ),
            final(self).unit() == old(self).unit(),
            final(self).user() == old(self).user() + size,
            final(self).allocated() == old(self).allocated() + pow2(
                old(self).rank_for(size, align),
            ),
            final(self).total() == old(self).total(),
            final(mem)@.agrees_outside(
                old(mem)@,
                addr as int,
                addr + pow2(old(self)@.first_fit(old(self).rank_for(size, align) as int) as nat),
            ),
            old(self)@.aligned() ==> final(self)@.aligned() && addr as nat % pow2(
                old(self).rank_for(size, align),
            ) == 0,
            forall|x: int| final(self)@.holds(x) == old(self)@.holds(x),
            old(self)@.canonical() ==> final(self)@.canonical(),
    {
        proof {
            self.lemma_unit_bounds(mem@);
            lemma_class_bounds(size as nat, align as nat, self.unit as nat);
        }
        let ghost g0 = self@;
        let ghost m0 = mem@;
        let level = self.rank_of(size, align);
        let mut i: usize = level;
        while i < RANKS && self.free_list[i].is_empty()
            invariant
                level <= i <= 32,
                self.threaded(mem@),
                self@.free.len() == 32,
                self@.first_fit(level as int) == self@.first_fit(i as int),
                self@.first_fit(level as int) < 32,
            decreases 32 - i,
        {
            assert(self@.free[i as int] == self.free_list@[i as int]@);
            i += 1;
        }
        proof {
            assert(self@.free[i as int] == self.free_list@[i as int]@);
            lemma_first_fit(g0, level as int);
        }
        let ghost top = g0.free[i as int][0];
        self.split(mem, level, i);
        let ghost g1 = self@;
        proof {
            assert(g1.free[level as int].len() > 0);
            assert(g1.free[level as int][0] == top);
        }
        let result = self.take_first(mem, level, size);
        proof {
            assert(self@.free =~= g0.carve(level as int)) by {
                assert forall|r: int| 0 <= r < 32 implies self@.free[r] == g0.carve(level as int)[r] by {
                    if r == level && level < i {
                        assert(g1.free[r] == seq![top, (top + pow2(r as nat)) as usize]);
                        assert(g1.free[r].drop_first() =~= seq![(top + pow2(r as nat)) as usize]);
                    }
                }
            }
            crate::buddy_laws::lemma_alloc_law(g0, m0, level as int, size as nat);
            assert(self@ == crate::buddy_laws::taken(g0, level as int, size as nat));
        }
        result
    }

    /// Puts the live block `idx`, of class `start` at `ptr`, back: joins it
    /// with its buddy as long as the buddy is free, and pushes what is left.
    fn merge(&mut self, mem: &mut Arena, start: usize, ptr: usize, Ghost(idx): Ghost<int>)
        requires
            old(mem)@.wf(),
            old(self).wf(old(mem)@),
            0 <= idx < old(self)@.live.len(),
            old(self)@.live[idx].addr == ptr,
            old(self)@.live[idx].rank == start,
        ensures
            final(mem)@.wf(),
            final(self).threaded(final(mem)@),
            final(self)@.inv(final(mem)@),
            final(self)@.unit_rank == old(self)@.unit_rank,
            final(self)@.free == coalesce(old(self)@.free, start as nat, ptr),
            final(self)@.live == old(self)@.live.remove(idx),
            free_bytes(final(self)@.free, 32) == free_bytes(old(self)@.free, 32) + pow2(
                start as nat,
            ),
            final(self).unit() == old(self).unit(),
            final(self).user() == old(self).user(),
            final(self).allocated() == old(self).allocated(),
            final(self).total() == old(self).total(),
            final(mem)@.base == old(mem)@.base,
            final(mem)@.words.len() == old(mem)@.words.len(),
            forall|a: usize|
                #[trigger] old(mem)@.holds(a) && a != ptr && !old(self)@.is_node(a) ==> final(mem)@.word(a) == old(mem)@.word(a),
            old(self)@.aligned() ==> final(self)@.aligned(),
    {
        let ghost g0 = self@;
        let ghost m0 = mem@;
        let ghost size = g0.live[idx].size;
        let mut curr: usize = ptr;
        let mut i: usize = start;
        proof {
            assert(self@.live =~= g0.live.update(
                idx,
                LiveBlock { addr: curr, rank: i as nat, size },
            ));
        }
        loop
            invariant_except_break
                start <= i < 32,
                self@.inv(mem@),
                self@.live == g0.live.update(idx, LiveBlock { addr: curr, rank: i as nat, size }),
                coalesce(g0.free, start as nat, ptr) == coalesce(self@.free, i as nat, curr),
                free_bytes(self@.free, 32) + pow2(i as nat) == free_bytes(g0.free, 32) + pow2(
                    start as nat,
                ),
                g0.aligned() ==> self@.aligned(),
                forall|a: usize, r: int| #[trigger] self@.is_free(a, r) ==> g0.is_free(a, r),
                curr == ptr || g0.is_node(curr),
            invariant
                0 <= idx < g0.live.len(),
                g0.free.len() == 32,
                mem@.wf(),
                self.threaded(mem@),
                self@.unit_rank == g0.unit_rank,
                self.unit == old(self).unit,
                self.user == old(self).user,
                self.allocated == old(self).allocated,
                self.total == old(self).total,
                mem@.base == m0.base,
                mem@.words.len() == m0.words.len(),
                forall|a: usize|
                    #[trigger] m0.holds(a) && a != ptr && !g0.is_node(a) ==> mem@.word(a)
                        == m0.word(a),
            ensures
                self@.inv(mem@),
                self@.free == coalesce(g0.free, start as nat, ptr),
                self@.live == g0.live.remove(idx),
                free_bytes(self@.free, 32) == free_bytes(g0.free, 32) + pow2(start as nat),
                g0.aligned() ==> self@.aligned(),
            decreases 32 - i,
        {
            let ghost g = self@;
            let ghost m = mem@;
            let ghost lists = self.free_list@;
            proof {
                assert forall|r: int| 0 <= r < 32 implies g.free[r] == (#[trigger] lists[r])@ by {}
                assert(g.live[idx] == LiveBlock { addr: curr, rank: i as nat, size });
            }
            let buddy = buddy_addr(curr, i);
            let target = self.free_list[i].find(mem, buddy);
            match target {
                Some(node) => {
                    proof {
                        assert(lists[i as int]@.contains(buddy));
                        assert(g.is_free(buddy, i as int));
                        assert(g0.is_node(buddy));
                        lemma_absorb_buddy(g, m, idx);
                        assert(node.index() == lists[i as int]@.index_of(buddy));
                        if node.index() > 0 {
                            let before = lists[i as int]@[node.index() - 1];
                            assert(g.free[i as int].contains(before));
                            assert(g.is_free(before, i as int));
                            assert(g0.is_node(before));
                        }
                    }
                    node.pop(&mut self.free_list[i], mem);
                    curr = if curr < buddy { curr } else { buddy };
                    proof {
                        let lists2 = self.free_list@;
                        let m2 = mem@;
                        let parent = parent_of(g.live[idx].addr, i as nat);
                        assert(curr == parent);
                        self.live@ = g.live.update(
                            idx,
                            LiveBlock { addr: curr, rank: (i + 1) as nat, size },
                        );
                        assert(self@.live =~= g0.live.update(
                            idx,
                            LiveBlock { addr: curr, rank: (i + 1) as nat, size },
                        ));
                        assert(self@.free =~= g.free.update(
                            i as int,
                            without(g.free[i as int], buddy),
                        ));
                        if node.index() > 0 {
                            let before = lists[i as int]@[node.index() - 1];
                            let val = link_at(lists[i as int]@, node.index() + 1);
                            m.lemma_store(before, val);
                            assert forall|r: int| 0 <= r < 32 implies (#[trigger] lists2[r]).wf(
                                m2,
                            ) by {
                                if r != i {
                                    assert(lists2[r] == lists[r]);
                                    assert(!g.free[r].contains(g.free[i as int][node.index() - 1]));
                                    lemma_linked_frame(m, lists[r]@, before, val);
                                }
                            }
                        } else {
                            assert forall|r: int| 0 <= r < 32 implies (#[trigger] lists2[r]).wf(
                                m2,
                            ) by {
                                if r != i {
                                    assert(lists2[r] == lists[r]);
                                }
                            }
                        }
                        lemma_pow2_rank((i + 1) as nat);
                    }
                    i = i + 1;
                },
                None => {
                    proof {
                        lemma_release(g, m, idx);
                        assert(m.holds(curr));
                    }
                    self.free_list[i].push(mem, curr);
                    proof {
                        let lists2 = self.free_list@;
                        let m2 = mem@;
                        let val = link_at(lists[i as int]@, 0);
                        m.lemma_store(curr, val);
                        assert forall|r: int| 0 <= r < 32 implies (#[trigger] lists2[r]).wf(m2) by {
                            if r != i {
                                assert(lists2[r] == lists[r]);
                                lemma_linked_frame(m, lists[r]@, curr, val);
                            }
                        }
                        self.live@ = g.live.remove(idx);
                        assert(self@.live =~= g0.live.remove(idx));
                        assert(self@.free =~= g.free.update(
                            i as int,
                            seq![curr] + g.free[i as int],
                        ));
                        assert forall|a: usize|
                            #[trigger] m0.holds(a) && a != ptr && !g0.is_node(a) implies m2.word(a)
                            == m0.word(a) by {
                        }
                    }
                    break ;
                },
            }
        }
    }

    /// Dealloc a range of memory from the heap: the block at `ptr` that was
    /// handed out for `size` bytes aligned to `align`.
    pub fn dealloc(&mut self, mem: &mut Arena, ptr: usize, size: usize, align: usize)
        requires
            old(mem)@.wf(),
            old(self).wf(old(mem)@),
            is_power_of_two(align as nat),
            old(self)@.live.contains(
                LiveBlock { addr: ptr, rank: old(self).rank_for(size, align), size: size as nat },
            ),
        ensures
            final(mem)@.wf(),
            final(self).wf(final(mem)@),
            final(self)@.free == coalesce(old(self)@.free, old(self).rank_for(size, align), ptr),
            final(self)@.live == old(self)@.live.remove(
                old(self)@.live.index_of(
                    LiveBlock {
                        addr: ptr,
                        rank: old(self).rank_for(size, align),
                        size: size as nat,
                    },
                ),
            ),
            final(self).unit() == old(self).unit(),
            final(self).user() == old(self).user() - size,
            final(self).allocated() == old(self).allocated() - pow2(
                old(self).rank_for(size, align),
            ),
            final(self).total() == old(self).total(),
            final(mem)@.base == old(mem)@.base,
            final(mem)@.words.len() == old(mem)@.words.len(),
            forall|a: usize|
                #[trigger] old(mem)@.holds(a) && a != ptr && !old(self)@.is_node(a) ==> final(mem)@.word(a) == old(mem)@.word(a),
            old(self)@.aligned() ==> final(self)@.aligned(),
            !final(self)@.live.contains(
                LiveBlock { addr: ptr, rank: old(self).rank_for(size, align), size: size as nat },
            ),
            forall|x: int| final(self)@.holds(x) == old(self)@.holds(x),
            old(self)@.canonical() ==> final(self)@.canonical(),
    {
        let ghost g0 = self@;
        let ghost m0 = mem@;
        let ghost block = LiveBlock {
            addr: ptr,
            rank: self.rank_for(size, align),
            size: size as nat,
        };
        let ghost idx = g0.live.index_of(block);
        proof {
            self.lemma_unit_bounds(mem@);
            vstd::arithmetic::power2::lemma2_to64();
            assert(g0.live[idx] == block);
            lemma_class_bounds(size as nat, align as nat, self.unit as nat);
            lemma_live_remove(g0.live, idx);
        }
        let level = self.rank_of(size, align);
        self.merge(mem, level, ptr, Ghost(idx));
        self.user = self.user - size;
        self.allocated = self.allocated - block_size(level);
        proof {
            crate::buddy_laws::lemma_dealloc_law(g0, m0, idx);
            assert(self@ == crate::buddy_laws::given_back(g0, idx));
            if self@.live.contains(block) {
                let k = choose|k: int| 0 <= k < self@.live.len() && self@.live[k] == block;
                let kk = if k < idx { k } else { k + 1 };
                assert(g0.live[kk] == block);
                lemma_pow2_pos(block.rank);
                assert(apart(
                    g0.live[kk].addr as int,
                    g0.live[kk].rank,
                    g0.live[idx].addr as int,
                    g0.live[idx].rank,
                ));
            }
        }
    }

    /// A store to an address where no free block starts leaves the allocator
    /// sound.
    pub proof fn lemma_store(&self, m: ArenaModel, addr: usize, val: usize)
        requires
            self.wf(m),
            m.holds(addr),
            !self@.is_node(addr),
        ensures
            self.wf(m.store(addr, val)),
    {
        m.lemma_store(addr, val);
        let lists = self.free_list@;
        assert forall|r: int| 0 <= r < 32 implies (#[trigger] lists[r]).wf(m.store(addr, val)) by {
            assert(self@.free[r] == lists[r]@);
            if lists[r]@.contains(addr) {
                assert(self@.is_free(addr, r));
            }
            lemma_linked_frame(m, lists[r]@, addr, val);
        }
    }

    /// An arena of the same extent that holds the same words where free
    /// blocks start leaves the allocator sound.
    pub proof fn lemma_agree(&self, m1: ArenaModel, m2: ArenaModel)
        requires
            self.wf(m1),
            m2.base == m1.base,
            m2.words.len() == m1.words.len(),
            forall|a: usize| #[trigger] self@.is_node(a) ==> m2.word(a) == m1.word(a),
        ensures
            self.wf(m2),
    {
        let lists = self.free_list@;
        assert forall|r: int| 0 <= r < 32 implies (#[trigger] lists[r]).wf(m2) by {
            assert(self@.free[r] == lists[r]@);
            assert forall|i: int| 0 <= i < lists[r]@.len() implies m2.word(
                #[trigger] lists[r]@[i],
            ) == m1.word(lists[r]@[i]) by {
                assert(lists[r]@.contains(lists[r]@[i]));
                assert(self@.is_free(lists[r]@[i], r));
                assert(self@.is_node(lists[r]@[i]));
            }
            lemma_linked_agree(m1, m2, lists[r]@);
        }
        assert forall|a: usize| #[trigger] m2.holds(a) == m1.holds(a) by {}
        assert(self@.well_placed(m2)) by {
            assert forall|a: usize, r: int| #[trigger] self@.is_free(a, r) implies {
                &&& self@.unit_rank <= r
                &&& a as int % (pow2(self@.unit_rank) as int) == 0
                &&& m2.holds(a)
                &&& m2.holds_range(a as int, pow2(r as nat) as int)
            } by {
                assert(m1.holds(a));
            }
            assert forall|j: int| 0 <= j < self@.live.len() implies {
                let b = #[trigger] self@.live[j];
                &&& self@.unit_rank <= b.rank < 32
                &&& b.size <= pow2(b.rank)
                &&& b.addr as int % (pow2(self@.unit_rank) as int) == 0
                &&& m2.holds(b.addr)
                &&& m2.holds_range(b.addr as int, pow2(b.rank) as int)
            } by {
                assert(m1.holds(self@.live[j].addr));
            }
        }
    }

    /// An arena that extends the one that the allocator is sound in leaves
    /// it sound.
    pub proof fn lemma_extends(&self, m1: ArenaModel, m2: ArenaModel)
        requires
            self.wf(m1),
            m2.extends(m1),
        ensures
            self.wf(m2),
    {
        let lists = self.free_list@;
        assert forall|r: int| 0 <= r < 32 implies (#[trigger] lists[r]).wf(m2) by {
            assert(self@.free[r] == lists[r]@);
            crate::linked_list::lemma_linked_extends(m1, m2, lists[r]@);
        }
        assert(self@.well_placed(m2)) by {
            assert forall|a: usize, r: int| #[trigger] self@.is_free(a, r) implies {
                &&& self@.unit_rank <= r
                &&& a as int % (pow2(self@.unit_rank) as int) == 0
                &&& m2.holds(a)
                &&& m2.holds_range(a as int, pow2(r as nat) as int)
            } by {
                assert(m1.holds(a));
            }
            assert forall|j: int| 0 <= j < self@.live.len() implies {
                let b = #[trigger] self@.live[j];
                &&& self@.unit_rank <= b.rank < 32
                &&& b.size <= pow2(b.rank)
                &&& b.addr as int % (pow2(self@.unit_rank) as int) == 0
                &&& m2.holds(b.addr)
                &&& m2.holds_range(b.addr as int, pow2(b.rank) as int)
            } by {
                assert(m1.holds(self@.live[j].addr));
            }
        }
    }

    /// A range none of whose bytes is a byte of the heap meets no block.
    pub proof fn lemma_clear_of(&self, lo: int, hi: int)
        requires
            lo < hi,
            forall|x: int| lo <= x < hi ==> !self@.holds(x),
        ensures
            self.clear_of(lo, hi),
    {
        assert forall|a: usize, r: int| #[trigger] self@.is_free(a, r) implies a + pow2(r as nat)
            <= lo || hi <= a by {
            lemma_pow2_pos(r as nat);
            if !(a + pow2(r as nat) <= lo || hi <= a) {
                let x = if a >= lo {
                    a as int
                } else {
                    lo
                };
                assert(crate::buddy_laws::inside(x, a as int, r as nat));
                assert(self@.covers_free(x));
                assert(self@.holds(x));
            }
        }
        assert forall|j: int| 0 <= j < self@.live.len() implies (#[trigger] self@.live[j]).addr
            + pow2(self@.live[j].rank) <= lo || hi <= self@.live[j].addr by {
            let b = self@.live[j];
            lemma_pow2_pos(b.rank);
            if !(b.addr + pow2(b.rank) <= lo || hi <= b.addr) {
                let x = if b.addr >= lo {
                    b.addr as int
                } else {
                    lo
                };
                assert(crate::buddy_laws::inside(x, b.addr as int, b.rank));
                assert(self@.covers_live(x));
                assert(self@.holds(x));
            }
        }
    }

    /// Round trip: where two sound heaps over arenas of one extent hold the
    /// same bytes, have no two free blocks that are buddies, and have all
    /// their blocks back, they have the same free blocks, and nothing counts
    /// as handed out.
    pub proof fn lemma_round_trip(&self, m1: ArenaModel, other: &BuddyAllocator, m2: ArenaModel)
        requires
            m1.wf(),
            m2.wf(),
            m2.base == m1.base,
            m2.words.len() == m1.words.len(),
            self.wf(m1),
            other.wf(m2),
            self@.canonical(),
            other@.canonical(),
            self@.live.len() == 0,
            other@.live.len() == 0,
            forall|x: int| self@.holds(x) == other@.holds(x),
        ensures
            forall|a: usize, r: int| self@.is_free(a, r) == other@.is_free(a, r),
            self.allocated() == 0,
            other.allocated() == 0,
            self.user() == 0,
            other.user() == 0,
    {
        let g = self@;
        let h = other@;
        assert forall|a: usize| #[trigger] m1.holds(a) == m2.holds(a) by {}
        assert(h.well_placed(m1)) by {
            assert forall|a: usize, r: int| #[trigger] h.is_free(a, r) implies {
                &&& h.unit_rank <= r
                &&& a as int % (pow2(h.unit_rank) as int) == 0
                &&& m1.holds(a)
                &&& m1.holds_range(a as int, pow2(r as nat) as int)
            } by {
                assert(m2.holds(a));
            }
        }
        crate::buddy_laws::lemma_full_coalescence(g, h, m1);
    }

    /// Size of the smallest block that is handed out.
    pub fn unit_size(&self) -> (n: usize)
        ensures
            n == self.unit(),
    {
        self.unit
    }

    /// Bytes that were asked for and are not yet given back.
    pub fn user_bytes(&self) -> (n: usize)
        ensures
            n == self.user(),
    {
        self.user
    }

    /// Bytes of the blocks that are handed out.
    pub fn allocated_bytes(&self) -> (n: usize)
        ensures
            n == self.allocated(),
    {
        self.allocated
    }

    /// Bytes that were ever added to the heap.
    pub fn total_bytes(&self) -> (n: usize)
        ensures
            n == self.total(),
    {
        self.total
    }

    /// Bytes held by the free lists.
    pub fn free_bytes(&self, mem: &Arena) -> (n: usize)
        requires
            self.wf(mem@),
        ensures
            n == free_bytes(self@.free, 32),
    {
        self.total - self.allocated
    }

    /// The addresses of the free blocks of class `rank`, first block first.
    pub fn free_blocks(&self, mem: &Arena, rank: usize) -> (blocks: Vec<usize>)
        requires
            mem@.wf(),
            self.wf(mem@),
            rank < 32,
        ensures
            blocks@ == self@.free[rank as int],
    {
        assert(self@.free[rank as int] == self.free_list@[rank as int]@);
        self.free_list[rank].to_vec(mem)
    }

    /// The unit is a size class of its own, no smaller than a word.
    pub proof fn lemma_unit_bounds(&self, m: ArenaModel)
        requires
            self.wf(m),
        ensures
            8 <= self.unit() <= ARENA_LIMIT,
            self.unit() == pow2(self@.unit_rank),
            self.unit() % 8 == 0,
    {
        vstd::arithmetic::power2::lemma2_to64();
        crate::bits::lemma_pow2_mod(self@.unit_rank, 3);
        lemma_pow2_monotone(3, self@.unit_rank);
        lemma_pow2_monotone(self@.unit_rank, 31);
    }
}

/// The free lists while the first block of class `end` is being split down:
/// class `j` holds the two halves of what was split last, each class between
/// `j` and `end` the upper half that stayed behind.
pub open spec fn split_state(free: Seq<Seq<usize>>, j: int, end: int) -> Seq<Seq<usize>> {
    let p = free[end][0];
    Seq::new(
        32,
        |r: int|
            if j == end {
                free[r]
            } else if r == end {
                free[r].drop_first()
            } else if r == j {
                seq![p, (p + pow2(r as nat)) as usize]
            } else if j < r < end {
                seq![(p + pow2(r as nat)) as usize]
            } else {
                free[r]
            },
    )
}

/// Taking the first free block of class `rank` for a request of `size` bytes
/// keeps the state sound.
pub proof fn lemma_take_block(g: BuddyModel, m: ArenaModel, rank: int, size: nat)
    requires
        m.wf(),
        g.inv(m),
        g.unit_rank <= rank < 32,
        g.free[rank].len() > 0,
        size <= pow2(rank as nat),
    ensures
        (BuddyModel {
            free: g.free.update(rank, g.free[rank].drop_first()),
            live: g.live.push(
                LiveBlock { addr: g.free[rank][0], rank: rank as nat, size },
            ),
            unit_rank: g.unit_rank,
        }).inv(m),
        g.aligned() ==> (BuddyModel {
            free: g.free.update(rank, g.free[rank].drop_first()),
            live: g.live.push(
                LiveBlock { addr: g.free[rank][0], rank: rank as nat, size },
            ),
            unit_rank: g.unit_rank,
        }).aligned() && g.free[rank][0] as nat % pow2(rank as nat) == 0,
{
    let p = g.free[rank][0];
    let block = LiveBlock { addr: p, rank: rank as nat, size };
    let g2 = BuddyModel {
        free: g.free.update(rank, g.free[rank].drop_first()),
        live: g.live.push(block),
        unit_rank: g.unit_rank,
    };
    assert(g.free[rank].contains(p));
    assert(g.is_free(p, rank));
    assert forall|a: usize, r: int| #[trigger] g2.is_free(a, r) implies g.is_free(a, r) && !(a == p
        && r == rank) by {
        if r == rank {
            assert(g.free[rank].no_duplicates());
            let k = choose|k: int|
                0 <= k < g.free[rank].drop_first().len() && g.free[rank].drop_first()[k] == a;
            assert(g.free[rank][k + 1] == a);
        }
    }
    assert forall|r: int| 0 <= r < 32 implies (#[trigger] g2.free[r]).no_duplicates() by {
        assert(g.free[r].no_duplicates());
    }
    assert forall|j: int| 0 <= j < g2.live.len() implies (j < g.live.len() && g2.live[j]
        == g.live[j]) || #[trigger] g2.live[j] == block by {}
    assert(g2.well_placed(m));
    assert(g2.separated());
}

/// One step of adding a region: with the blocks below class `k` in place and
/// `cur` the first byte that is left, the block of the lowest set bit of the
/// rest can be pushed, and the classes up to it are then in place.
pub proof fn lemma_region_push(
    g0: BuddyModel,
    g: BuddyModel,
    m: ArenaModel,
    s: usize,
    e: usize,
    k: nat,
    cur: usize,
    level: nat,
)
    requires
        s <= cur < e,
        g0.unit_rank <= k < 32,
        g0.free.len() == 32,
        cur == s + ((e - s) as nat) % pow2(k),
        cur as int % (pow2(g0.unit_rank) as int) == 0,
        m.wf(),
        m.base <= s,
        e <= m.end(),
        g.inv(m),
        g.unit_rank == g0.unit_rank,
        g.live == g0.live,
        g.free == region_state(g0.free, s as int, (e - s) as nat, k),
        free_bytes(g.free, 32) == free_bytes(g0.free, 32) + ((e - s) as nat) % pow2(k),
        forall|a: usize, r: int| #[trigger]
            g.is_free(a, r) ==> g0.is_free(a, r) || (s <= a && a + pow2(r as nat) <= cur),
        forall|a: usize, r: int| #[trigger] g0.is_free(a, r) ==> a + pow2(r as nat) <= s || e <= a,
        forall|j: int|
            0 <= j < g0.live.len() ==> (#[trigger] g0.live[j]).addr + pow2(g0.live[j].rank) <= s
                || e <= g0.live[j].addr,
        g0.aligned() && region_aligned(s as int, (e - s) as nat) ==> g.aligned(),
        level == low_zeros((e - cur) as nat),
    ensures
        k <= level < 32,
        m.holds(cur),
        cur + pow2(level) <= e,
        cur + pow2(level) == s + ((e - s) as nat) % pow2(level + 1),
        (cur + pow2(level)) % (pow2(g0.unit_rank) as int) == 0,
        cur + pow2(level) < e ==> level + 1 < 32,
        forall|r: int| 0 <= r < 32 ==> !(#[trigger] g.free[r]).contains(cur),
        ({
            let g2 = BuddyModel {
                free: g.free.update(level as int, seq![cur] + g.free[level as int]),
                live: g.live,
                unit_rank: g.unit_rank,
            };
            &&& g2.inv(m)
            &&& g2.free == region_state(g0.free, s as int, (e - s) as nat, level + 1)
            &&& free_bytes(g2.free, 32) == free_bytes(g0.free, 32) + ((e - s) as nat) % pow2(
                level + 1,
            )
            &&& forall|a: usize, r: int| #[trigger]
                g2.is_free(a, r) ==> g0.is_free(a, r) || (s <= a && a + pow2(r as nat) <= cur
                    + pow2(level))
            &&& (g0.aligned() && region_aligned(s as int, (e - s) as nat) ==> g2.aligned())
        }),
{
    let len = (e - s) as nat;
    lemma_region_arith(s as int, e as int, g0.unit_rank, k, cur as int, level);
    assert(m.holds(cur)) by {
        vstd::arithmetic::power2::lemma2_to64();
        crate::bits::lemma_pow2_mod(g0.unit_rank, 3);
        lemma_pow2_pos(g0.unit_rank);
        crate::bits::lemma_mod_trans(cur as int, pow2(g0.unit_rank) as int, 8);
    }
    let next = cur + pow2(level);
    let g2 = BuddyModel {
        free: g.free.update(level as int, seq![cur] + g.free[level as int]),
        live: g.live,
        unit_rank: g.unit_rank,
    };
    assert(m.holds_range(cur as int, pow2(level) as int));
    assert forall|a: usize, r: int| #[trigger] g.is_free(a, r) implies apart(
        a as int,
        r as nat,
        cur as int,
        level,
    ) by {
        if g0.is_free(a, r) {
        }
    }
    assert forall|j: int| 0 <= j < g.live.len() implies apart(
        (#[trigger] g.live[j]).addr as int,
        g.live[j].rank,
        cur as int,
        level,
    ) by {
        assert(g.live[j] == g0.live[j]);
    }
    lemma_add_block(g, m, cur, level as int);
    assert(g2.free =~= region_state(g0.free, s as int, len, level + 1)) by {
        assert forall|r: int| 0 <= r < 32 implies g2.free[r] == region_state(
            g0.free,
            s as int,
            len,
            level + 1,
        )[r] by {
            if k <= r < level {
                assert(!has_bit(len, r as nat));
            }
        }
    }
    assert(g0.aligned() && region_aligned(s as int, len) ==> g2.aligned()) by {
        if g0.aligned() && region_aligned(s as int, len) {
            assert(has_bit(len, level));
            assert((s + len % pow2(level)) % (pow2(level) as int) == 0);
            assert(cur as nat % pow2(level) == 0);
        }
    }
    assert forall|a: usize, r: int| #[trigger] g2.is_free(a, r) implies g0.is_free(a, r) || (s
        <= a && a + pow2(r as nat) <= next) by {
        if !(a == cur && r == level) {
            assert(g.is_free(a, r));
        }
    }
}

/// The arithmetic of one step of adding a region.
pub proof fn lemma_region_arith(s: int, e: int, u: nat, k: nat, cur: int, level: nat)
    requires
        0 <= s <= cur < e,
        e - s <= 0x8000_0000,
        u <= k < 32,
        cur == s + ((e - s) as nat) % pow2(k),
        cur % (pow2(u) as int) == 0,
        level == low_zeros((e - cur) as nat),
    ensures
        k <= level < 32,
        cur + pow2(level) <= e,
        cur + pow2(level) == s + ((e - s) as nat) % pow2(level + 1),
        (cur + pow2(level)) % (pow2(u) as int) == 0,
        cur + pow2(level) < e ==> level + 1 < 32,
        has_bit((e - s) as nat, level),
        ((e - s) as nat) % pow2(level) == ((e - s) as nat) % pow2(k),
        forall|r: nat| k <= r < level ==> !#[trigger] has_bit((e - s) as nat, r),
{
    let len = (e - s) as nat;
    lemma_region_step(len, k, level);
    let p = pow2(level);
    let low = len % pow2(level);
    assert(level < 32 && p > 0) by {
        vstd::arithmetic::power2::lemma2_to64();
        if level >= 32 {
            lemma_pow2_monotone(32, level);
        } else {
            lemma_pow2_rank(level);
        }
    }
    assert((cur + p) % (pow2(u) as int) == 0) by {
        crate::bits::lemma_pow2_mod(level, u);
        lemma_pow2_pos(u);
        crate::bits::lemma_mod_sum(cur, p as int, pow2(u) as int);
    }
    assert(cur == s + low);
    assert(len % pow2(level + 1) == low + p);
    assert(low + p <= len) by {
        lemma_pow2_pos(level + 1);
        vstd::arithmetic::div_mod::lemma_mod_decreases(len, pow2(level + 1));
    }
    assert(cur + p < e ==> level + 1 < 32) by {
        if level + 1 >= 32 {
            vstd::arithmetic::power2::lemma2_to64();
            vstd::arithmetic::div_mod::lemma_small_mod(len, pow2(32));
        }
    }
}

/// Once no byte of a region is left, the classes above the last block hold
/// nothing of it.
pub proof fn lemma_region_done(free: Seq<Seq<usize>>, s: int, len: nat, k: nat)
    requires
        k <= 32,
        len % pow2(k) == len,
    ensures
        region_state(free, s, len, k) == region_state(free, s, len, 32),
{
    let low = region_state(free, s, len, k);
    let top = region_state(free, s, len, 32);
    assert forall|r: int| 0 <= r < 32 implies low[r] == top[r] by {
        if r >= k && has_bit(len, r as nat) {
            lemma_pow2_pos(r as nat);
            lemma_pow2_monotone(k, r as nat);
            vstd::arithmetic::div_mod::lemma_fundamental_div_mod(len as int, pow2(r as nat) as int);
            let q = len / pow2(r as nat);
            assert(len >= pow2(r as nat)) by (nonlinear_arith)
                requires
                    len == pow2(r as nat) * q + len % pow2(r as nat),
                    q >= 1,
                    len % pow2(r as nat) >= 0,
                    pow2(r as nat) > 0,
            ;
            lemma_pow2_pos(k);
            vstd::arithmetic::div_mod::lemma_mod_bound(len as int, pow2(k) as int);
        }
    }
    assert(low =~= top);
}

/// A request whose size class is one of the 32 is for no more bytes, and
/// for no larger alignment, than the highest class has.
pub proof fn lemma_class_bounds(size: nat, align: nat, unit: nat)
    requires
        class_rank(size, align, unit) < 32,
    ensures
        size <= 0x8000_0000,
        align <= 0x8000_0000,
{
    vstd::arithmetic::power2::lemma2_to64();
    let big: nat = if size >= align && size >= unit {
        size
    } else if align >= unit {
        align
    } else {
        unit
    };
    crate::bits::lemma_ceil_log2(big);
    lemma_pow2_monotone(ceil_log2(big), 31);
}

/// Empty lists hold no bytes.
pub proof fn lemma_free_bytes_zero(n: nat)
    requires
        n <= 32,
    ensures
        free_bytes(Seq::new(32, |r: int| Seq::<usize>::empty()), n) == 0,
    decreases n,
{
    if n > 0 {
        lemma_free_bytes_zero((n - 1) as nat);
        assert(0 * pow2((n - 1) as nat) == 0) by (nonlinear_arith);
    }
}

} // verus!
