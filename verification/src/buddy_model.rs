//! The mathematical state of the buddy allocator: which blocks are free, in
//! what order, and which are handed out.

use vstd::prelude::*;
use vstd::arithmetic::power2::{lemma_pow2_pos, pow2};
use crate::arena::ArenaModel;
use crate::bits::{buddy_of, ceil_log2, lemma_pow2_rank};

verus! {

/// A block that is handed out: where it starts, its size class, and the
/// number of bytes that were asked for.
pub struct LiveBlock {
    pub addr: usize,
    pub rank: nat,
    pub size: nat,
}

/// The byte ranges of the block of class `r1` at `a1` and of the block of
/// class `r2` at `a2` do not meet.
pub open spec fn apart(a1: int, r1: nat, a2: int, r2: nat) -> bool {
    a1 + pow2(r1) <= a2 || a2 + pow2(r2) <= a1
}

/// Bytes held by the free lists of the classes below `n`.
pub open spec fn free_bytes(free: Seq<Seq<usize>>, n: nat) -> nat
    decreases n,
{
    if n == 0 {
        0
    } else {
        free_bytes(free, (n - 1) as nat) + free[n - 1].len() * pow2((n - 1) as nat)
    }
}

/// Bytes of all live blocks, each counted with the size of its class.
pub open spec fn class_bytes(live: Seq<LiveBlock>) -> nat
    decreases live.len(),
{
    if live.len() == 0 {
        0
    } else {
        class_bytes(live.drop_last()) + pow2(live.last().rank)
    }
}

/// Bytes of all live blocks, each counted with the size that was asked for.
pub open spec fn user_bytes(live: Seq<LiveBlock>) -> nat
    decreases live.len(),
{
    if live.len() == 0 {
        0
    } else {
        user_bytes(live.drop_last()) + live.last().size
    }
}

/// The list `s` without its element `a`.
pub open spec fn without(s: Seq<usize>, a: usize) -> Seq<usize> {
    s.remove(s.index_of(a))
}

/// The address of the block that a block and its buddy form together.
pub open spec fn parent_of(addr: usize, rank: nat) -> usize {
    if buddy_of(addr, rank) < addr {
        buddy_of(addr, rank) as usize
    } else {
        addr
    }
}

/// The free lists after the block of class `rank` at `addr` has come back:
/// as long as the buddy of the block is free, the two become one block of
/// the next class; the block that is left goes to the front of its list.
pub open spec fn coalesce(free: Seq<Seq<usize>>, rank: nat, addr: usize) -> Seq<Seq<usize>>
    decreases 32 - rank,
{
    if rank >= 32 {
        free
    } else if 0 <= buddy_of(addr, rank) <= usize::MAX && free[rank as int].contains(
        buddy_of(addr, rank) as usize,
    ) {
        coalesce(
            free.update(rank as int, without(free[rank as int], buddy_of(addr, rank) as usize)),
            rank + 1,
            parent_of(addr, rank),
        )
    } else {
        free.update(rank as int, seq![addr] + free[rank as int])
    }
}

/// The free blocks of each size class, first block first, and the live
/// blocks in the order in which they were handed out.
pub struct BuddyModel {
    pub free: Seq<Seq<usize>>,
    pub live: Seq<LiveBlock>,
    pub unit_rank: nat,
}

impl BuddyModel {
    /// A block of class `rank` at `addr` is free.
    pub open spec fn is_free(self, addr: usize, rank: int) -> bool {
        0 <= rank < 32 && self.free[rank].contains(addr)
    }

    /// `addr` is where some free block starts.
    pub open spec fn is_node(self, addr: usize) -> bool {
        exists|rank: int| self.is_free(addr, rank)
    }

    /// The lowest class from `rank` up that has a free block, or 32.
    pub open spec fn first_fit(self, rank: int) -> int
        decreases 32 - rank,
    {
        if rank >= 32 {
            32
        } else if rank >= 0 && self.free[rank].len() > 0 {
            rank
        } else {
            self.first_fit(rank + 1)
        }
    }

    /// The free lists after a block of class `rank` has been carved out of
    /// the first block of the lowest class that has one: each class in
    /// between keeps the upper half of what was split.
    pub open spec fn carve(self, rank: int) -> Seq<Seq<usize>> {
        let top = self.first_fit(rank);
        let p = self.free[top][0];
        Seq::new(
            32,
            |r: int|
                if r == top {
                    self.free[r].drop_first()
                } else if rank <= r < top {
                    seq![(p + pow2(r as nat)) as usize]
                } else {
                    self.free[r]
                },
        )
    }

    /// Every block has a class between the unit's and the highest, starts at
    /// a multiple of the unit and lies in the arena, and a live block is as
    /// large as what was asked for.
    pub open spec fn well_placed(self, m: ArenaModel) -> bool {
        &&& forall|a: usize, r: int| #[trigger]
            self.is_free(a, r) ==> {
                &&& self.unit_rank <= r
                &&& a as int % (pow2(self.unit_rank) as int) == 0
                &&& m.holds(a)
                &&& m.holds_range(a as int, pow2(r as nat) as int)
            }
        &&& forall|j: int|
            0 <= j < self.live.len() ==> {
                let b = #[trigger] self.live[j];
                &&& self.unit_rank <= b.rank < 32
                &&& b.size <= pow2(b.rank)
                &&& b.addr as int % (pow2(self.unit_rank) as int) == 0
                &&& m.holds(b.addr)
                &&& m.holds_range(b.addr as int, pow2(b.rank) as int)
            }
    }

    /// No two blocks overlap.
    pub open spec fn separated(self) -> bool {
        &&& forall|a1: usize, r1: int, a2: usize, r2: int|
            #[trigger] self.is_free(a1, r1) && #[trigger] self.is_free(a2, r2) && (a1 != a2 || r1
                != r2) ==> apart(a1 as int, r1 as nat, a2 as int, r2 as nat)
        &&& forall|a: usize, r: int, j: int|
            #[trigger] self.is_free(a, r) && 0 <= j < self.live.len() ==> apart(
                a as int,
                r as nat,
                (#[trigger] self.live[j]).addr as int,
                self.live[j].rank,
            )
        &&& forall|j: int, k: int|
            0 <= j < self.live.len() && 0 <= k < self.live.len() && j != k ==> apart(
                (#[trigger] self.live[j]).addr as int,
                self.live[j].rank,
                (#[trigger] self.live[k]).addr as int,
                self.live[k].rank,
            )
    }

    /// Every block starts at a multiple of its own size.
    pub open spec fn aligned(self) -> bool {
        &&& forall|a: usize, r: int| #[trigger]
            self.is_free(a, r) ==> a as nat % pow2(r as nat) == 0
        &&& forall|j: int|
            0 <= j < self.live.len() ==> (#[trigger] self.live[j]).addr as nat % pow2(
                self.live[j].rank,
            ) == 0
    }

    /// The state is sound with respect to the arena `m`.
    pub open spec fn inv(self, m: ArenaModel) -> bool {
        &&& self.free.len() == 32
        &&& 3 <= self.unit_rank < 32
        &&& forall|r: int| 0 <= r < 32 ==> (#[trigger] self.free[r]).no_duplicates()
        &&& self.well_placed(m)
        &&& self.separated()
    }
}

/// Replacing one free list changes the bytes held by as many blocks as the
/// list gains or loses.
pub proof fn lemma_free_bytes_update(free: Seq<Seq<usize>>, r: int, list: Seq<usize>, n: nat)
    requires
        0 <= r < free.len(),
        n <= free.len(),
    ensures
        free_bytes(free.update(r, list), n) == free_bytes(free, n) + (if r < n {
            (list.len() - free[r].len()) * pow2(r as nat)
        } else {
            0
        }),
    decreases n,
{
    if n > 0 {
        lemma_free_bytes_update(free, r, list, (n - 1) as nat);
        if r == n - 1 {
            let p = pow2(r as nat) as int;
            let a = list.len() as int;
            let b = free[r].len() as int;
            assert(a * p == b * p + (a - b) * p) by (nonlinear_arith);
        }
    }
}

/// Free lists that agree below `n` hold the same bytes below `n`.
pub proof fn lemma_free_bytes_same(f: Seq<Seq<usize>>, g: Seq<Seq<usize>>, n: nat)
    requires
        n <= f.len(),
        n <= g.len(),
        forall|r: int| 0 <= r < n ==> f[r].len() == g[r].len(),
    ensures
        free_bytes(f, n) == free_bytes(g, n),
    decreases n,
{
    if n > 0 {
        lemma_free_bytes_same(f, g, (n - 1) as nat);
    }
}

/// A class with a free block accounts for at least one block of its size.
pub proof fn lemma_free_bytes_lower(free: Seq<Seq<usize>>, r: int, n: nat)
    requires
        0 <= r < n <= free.len(),
        free[r].len() > 0,
    ensures
        free_bytes(free, n) >= pow2(r as nat),
    decreases n,
{
    if r == n - 1 {
        let p = pow2(r as nat) as int;
        let a = free[r].len() as int;
        lemma_pow2_pos(r as nat);
        assert(a * p >= p) by (nonlinear_arith)
            requires
                a >= 1,
                p >= 0,
        ;
    } else {
        lemma_free_bytes_lower(free, r, (n - 1) as nat);
    }
}

/// Handing out one more block adds its bytes to both sums.
pub proof fn lemma_live_push(live: Seq<LiveBlock>, b: LiveBlock)
    ensures
        class_bytes(live.push(b)) == class_bytes(live) + pow2(b.rank),
        user_bytes(live.push(b)) == user_bytes(live) + b.size,
{
    assert(live.push(b).drop_last() =~= live);
}

/// Taking one block back subtracts its bytes from both sums.
pub proof fn lemma_live_remove(live: Seq<LiveBlock>, i: int)
    requires
        0 <= i < live.len(),
    ensures
        class_bytes(live.remove(i)) + pow2(live[i].rank) == class_bytes(live),
        user_bytes(live.remove(i)) + live[i].size == user_bytes(live),
    decreases live.len(),
{
    if i == live.len() - 1 {
        assert(live.remove(i) =~= live.drop_last());
    } else {
        lemma_live_remove(live.drop_last(), i);
        assert(live.remove(i).drop_last() =~= live.drop_last().remove(i));
        assert(live.remove(i).last() == live.last());
    }
}

/// Where no live block is larger than its class, the bytes asked for do not
/// exceed the bytes handed out.
pub proof fn lemma_user_le_class(live: Seq<LiveBlock>)
    requires
        forall|j: int| 0 <= j < live.len() ==> (#[trigger] live[j]).size <= pow2(live[j].rank),
    ensures
        user_bytes(live) <= class_bytes(live),
    decreases live.len(),
{
    if live.len() > 0 {
        assert forall|j: int| 0 <= j < live.drop_last().len() implies (#[trigger] live.drop_last()[j]).size
            <= pow2(live.drop_last()[j].rank) by {
            assert(live.drop_last()[j] == live[j]);
        }
        lemma_user_le_class(live.drop_last());
    }
}

/// The lowest class with a free block, where there is one, has a free block
/// and every class between `rank` and it has none.
pub proof fn lemma_first_fit(model: BuddyModel, rank: int)
    requires
        0 <= rank <= 32,
        model.free.len() == 32,
    ensures
        rank <= model.first_fit(rank) <= 32,
        model.first_fit(rank) < 32 ==> model.free[model.first_fit(rank)].len() > 0,
        forall|r: int| rank <= r < model.first_fit(rank) ==> model.free[r].len() == 0,
    decreases 32 - rank,
{
    if rank < 32 && model.free[rank].len() == 0 {
        lemma_first_fit(model, rank + 1);
    }
}

/// Two blocks of the highest class do not fit into one arena.
pub proof fn lemma_top_rank_alone(m: ArenaModel, a1: int, a2: int)
    requires
        m.wf(),
        m.holds_range(a1, pow2(31) as int),
        m.holds_range(a2, pow2(31) as int),
    ensures
        !apart(a1, 31, a2, 31),
{
    lemma_pow2_rank(31);
    vstd::arithmetic::power2::lemma2_to64();
}

/// A power of two.
pub open spec fn is_power_of_two(n: nat) -> bool {
    n == pow2(ceil_log2(n))
}

/// The size class of a request: the exponent of the least power of two that
/// is no less than the size, the alignment and the unit.
pub open spec fn class_rank(size: nat, align: nat, unit: nat) -> nat {
    ceil_log2(if size >= align && size >= unit { size } else if align >= unit { align } else { unit })
}

} // verus!

verus! {

/// The state after the first block of class `j` has been split into its two
/// halves, which go to the front of the class below, lower half first.
pub open spec fn split_once(g: BuddyModel, j: int) -> BuddyModel {
    let p = g.free[j][0];
    let h = pow2((j - 1) as nat);
    BuddyModel {
        free: g.free.update(j, g.free[j].drop_first()).update(
            j - 1,
            seq![p, (p + h) as usize] + g.free[j - 1],
        ),
        live: g.live,
        unit_rank: g.unit_rank,
    }
}

/// Splitting a free block keeps the state sound and the free bytes the same,
/// and neither half was a free block before.
pub proof fn lemma_split_once(g: BuddyModel, m: ArenaModel, j: int)
    requires
        m.wf(),
        g.inv(m),
        g.unit_rank < j < 32,
        g.free[j].len() > 0,
    ensures
        g.free[j][0] + pow2((j - 1) as nat) <= usize::MAX,
        m.holds(g.free[j][0]),
        m.holds((g.free[j][0] + pow2((j - 1) as nat)) as usize),
        forall|r: int|
            0 <= r < 32 ==> !(#[trigger] g.free[r]).contains(
                (g.free[j][0] + pow2((j - 1) as nat)) as usize,
            ),
        forall|r: int| 0 <= r < 32 && r != j ==> !(#[trigger] g.free[r]).contains(g.free[j][0]),
        split_once(g, j).inv(m),
        free_bytes(split_once(g, j).free, 32) == free_bytes(g.free, 32),
        g.aligned() ==> split_once(g, j).aligned(),
{
    let p = g.free[j][0];
    let h = pow2((j - 1) as nat);
    let q = (p + h) as usize;
    let g2 = split_once(g, j);
    lemma_pow2_rank(j as nat);
    lemma_pow2_rank((j - 1) as nat);
    assert(g.free[j].contains(p));
    assert(g.is_free(p, j));
    assert(m.holds(q)) by {
        assert(h % 8 == 0);
    }
    assert(q as int % (pow2(g.unit_rank) as int) == 0) by {
        crate::bits::lemma_pow2_mod((j - 1) as nat, g.unit_rank);
        lemma_pow2_pos(g.unit_rank);
        crate::bits::lemma_mod_sum(p as int, h as int, pow2(g.unit_rank) as int);
    }
    assert forall|r: int| 0 <= r < 32 implies !(#[trigger] g.free[r]).contains(q) by {
        if g.free[r].contains(q) {
            assert(g.is_free(q, r));
            lemma_pow2_pos(r as nat);
        }
    }
    assert forall|r: int| 0 <= r < 32 && r != j implies !(#[trigger] g.free[r]).contains(p) by {
        if g.free[r].contains(p) {
            assert(g.is_free(p, r));
            lemma_pow2_pos(r as nat);
        }
    }
    let low = seq![p, q] + g.free[j - 1];
    assert forall|a: usize, r: int| #[trigger] g2.is_free(a, r) implies (r == j - 1 && (a == p || a
        == q)) || (g.is_free(a, r) && !(a == p && r == j)) by {
        if r == j {
            assert(g.free[j].no_duplicates());
            let k = choose|k: int| 0 <= k < g.free[j].drop_first().len() && g.free[j].drop_first()[k] == a;
            assert(g.free[j][k + 1] == a);
        } else if r == j - 1 {
            let k = choose|k: int| 0 <= k < low.len() && low[k] == a;
            if k >= 2 {
                assert(g.free[j - 1][k - 2] == a);
            }
        }
    }
    assert forall|a: usize, r: int| g.is_free(a, r) && !(a == p && r == j) implies #[trigger] g2.is_free(
        a,
        r,
    ) by {
        let k = choose|k: int| 0 <= k < g.free[r].len() && g.free[r][k] == a;
        if r == j {
            assert(g.free[j].drop_first()[k - 1] == a);
        } else if r == j - 1 {
            assert(low[k + 2] == a);
        }
    }
    assert(g2.is_free(p, j - 1)) by {
        assert(low[0] == p);
    }
    assert(g2.is_free(q, j - 1)) by {
        assert(low[1] == q);
    }
    assert forall|r: int| 0 <= r < 32 implies (#[trigger] g2.free[r]).no_duplicates() by {
        assert(g.free[r].no_duplicates());
        if r == j - 1 {
            assert forall|x: int, y: int| 0 <= x < low.len() && 0 <= y < low.len() && x != y implies low[x]
                != low[y] by {
                if x >= 2 {
                    assert(g.free[j - 1].contains(low[x]));
                }
                if y >= 2 {
                    assert(g.free[j - 1].contains(low[y]));
                }
            }
        }
    }
    assert(g2.well_placed(m));
    assert(g2.separated());
    lemma_free_bytes_update(g.free, j, g.free[j].drop_first(), 32);
    lemma_free_bytes_update(g.free.update(j, g.free[j].drop_first()), j - 1, low, 32);
    assert(free_bytes(g2.free, 32) == free_bytes(g.free, 32)) by {
        let hh = h as int;
        let a = g.free[j].len() as int;
        let b = g.free[j - 1].len() as int;
        assert((a - 1 - a) * (2 * hh) + (b + 2 - b) * hh == 0) by (nonlinear_arith);
    }
    if g.aligned() {
        assert forall|a: usize, r: int| #[trigger] g2.is_free(a, r) implies a as nat % pow2(
            r as nat,
        ) == 0 by {
            if r == j - 1 && (a == p || a == q) {
                lemma_half_aligned(p as nat, h);
            }
        }
    }
}

/// A multiple of `2 * h` is a multiple of `h`, and so is what lies `h` above
/// it.
pub proof fn lemma_half_aligned(p: nat, h: nat)
    requires
        h > 0,
        p % (2 * h) == 0,
    ensures
        p % h == 0,
        (p + h) % h == 0,
{
    let k = p / (2 * h);
    vstd::arithmetic::div_mod::lemma_fundamental_div_mod(p as int, (2 * h) as int);
    assert(p == (2 * k) * h) by (nonlinear_arith)
        requires
            p == (2 * h) * k,
    ;
    assert(p + h == (2 * k + 1) * h) by (nonlinear_arith)
        requires
            p == (2 * h) * k,
    ;
    vstd::arithmetic::div_mod::lemma_mod_multiples_basic((2 * k) as int, h as int);
    vstd::arithmetic::div_mod::lemma_mod_multiples_basic((2 * k + 1) as int, h as int);
}

} // verus!

verus! {

/// `x` is a multiple of `p`; where the quotient is even `x` is a multiple of
/// `2 * p`, and where it is odd `x - p` is.
pub proof fn lemma_parent_aligned(x: nat, p: nat)
    requires
        p > 0,
        x % p == 0,
    ensures
        (x / p) % 2 == 0 ==> x % (2 * p) == 0,
        (x / p) % 2 == 1 ==> x >= p && (x - p) % (2 * p) as int == 0,
{
    let q = x / p;
    vstd::arithmetic::div_mod::lemma_fundamental_div_mod(x as int, p as int);
    let k = q / 2;
    if q % 2 == 0 {
        assert(x == k * (2 * p)) by (nonlinear_arith)
            requires
                x == p * q,
                q == 2 * k,
        ;
        vstd::arithmetic::div_mod::lemma_mod_multiples_basic(k as int, (2 * p) as int);
    } else {
        assert(x - p == k * (2 * p) && x >= p) by (nonlinear_arith)
            requires
                x == p * q,
                q == 2 * k + 1,
                p > 0,
                k >= 0,
        ;
        vstd::arithmetic::div_mod::lemma_mod_multiples_basic(k as int, (2 * p) as int);
    }
}

/// A block whose buddy is free joins it: the buddy leaves its list and the
/// block becomes one of the next class at the lower of the two addresses.
pub proof fn lemma_absorb_buddy(g: BuddyModel, m: ArenaModel, idx: int)
    requires
        m.wf(),
        g.inv(m),
        0 <= idx < g.live.len(),
        0 <= buddy_of(g.live[idx].addr, g.live[idx].rank) <= usize::MAX,
        g.free[g.live[idx].rank as int].contains(
            buddy_of(g.live[idx].addr, g.live[idx].rank) as usize,
        ),
    ensures
        g.live[idx].rank < 31,
        ({
            let b = g.live[idx];
            let buddy = buddy_of(b.addr, b.rank) as usize;
            let g2 = BuddyModel {
                free: g.free.update(b.rank as int, without(g.free[b.rank as int], buddy)),
                live: g.live.update(
                    idx,
                    LiveBlock { addr: parent_of(b.addr, b.rank), rank: b.rank + 1, size: b.size },
                ),
                unit_rank: g.unit_rank,
            };
            &&& g2.inv(m)
            &&& free_bytes(g2.free, 32) + pow2(b.rank) == free_bytes(g.free, 32)
            &&& (g.aligned() ==> g2.aligned())
            &&& forall|a: usize, r: int| #[trigger] g2.is_free(a, r) ==> g.is_free(a, r)
            &&& forall|r: int|
                0 <= r < 32 && r != b.rank ==> !(#[trigger] g.free[r]).contains(buddy)
            &&& forall|r: int|
                0 <= r < 32 && r != b.rank ==> forall|k: int|
                    0 <= k < g.free[b.rank as int].len() ==> !(#[trigger] g.free[r]).contains(
                        g.free[b.rank as int][k],
                    )
        }),
{
    let b = g.live[idx];
    let i = b.rank as int;
    let buddy = buddy_of(b.addr, b.rank) as usize;
    let parent = parent_of(b.addr, b.rank);
    let list = g.free[i];
    let at = list.index_of(buddy);
    let rest = without(list, buddy);
    let g2 = BuddyModel {
        free: g.free.update(i, rest),
        live: g.live.update(idx, LiveBlock { addr: parent, rank: b.rank + 1, size: b.size }),
        unit_rank: g.unit_rank,
    };
    lemma_pow2_pos(b.rank);
    assert(g.is_free(buddy, i));
    assert(list.no_duplicates());
    crate::linked_list::lemma_remove_distinct(list, at);
    if b.rank == 31 {
        lemma_top_rank_alone(m, b.addr as int, buddy as int);
    }
    lemma_pow2_rank(b.rank + 1);
    assert forall|a: usize, r: int| #[trigger] g2.is_free(a, r) implies g.is_free(a, r) && !(a
        == buddy && r == i) by {}
    assert forall|r: int| 0 <= r < 32 implies (#[trigger] g2.free[r]).no_duplicates() by {
        assert(g.free[r].no_duplicates());
    }
    assert forall|r: int| 0 <= r < 32 && r != i implies !(#[trigger] g.free[r]).contains(buddy) by {
        if g.free[r].contains(buddy) {
            assert(g.is_free(buddy, r));
            lemma_pow2_pos(r as nat);
        }
    }
    assert forall|r: int| 0 <= r < 32 && r != i implies forall|k: int|
        0 <= k < g.free[i].len() ==> !(#[trigger] g.free[r]).contains(g.free[i][k]) by {
        assert forall|k: int| 0 <= k < g.free[i].len() implies !(#[trigger] g.free[r]).contains(
            g.free[i][k],
        ) by {
            let a = g.free[i][k];
            assert(g.free[i].contains(a));
            if g.free[r].contains(a) {
                assert(g.is_free(a, r));
                assert(g.is_free(a, i));
                lemma_pow2_pos(r as nat);
            }
        }
    }
    assert forall|j: int| 0 <= j < g2.live.len() && j != idx implies #[trigger] g2.live[j]
        == g.live[j] by {}
    assert(g2.well_placed(m)) by {
        assert forall|j: int| 0 <= j < g2.live.len() implies {
            let c = #[trigger] g2.live[j];
            &&& g2.unit_rank <= c.rank < 32
            &&& c.size <= pow2(c.rank)
            &&& c.addr as int % (pow2(g2.unit_rank) as int) == 0
            &&& m.holds(c.addr)
            &&& m.holds_range(c.addr as int, pow2(c.rank) as int)
        } by {
            if j != idx {
                assert(g2.live[j] == g.live[j]);
            }
        }
    }
    assert(g2.separated()) by {
        assert forall|a: usize, r: int, j: int| #[trigger]
            g2.is_free(a, r) && 0 <= j < g2.live.len() implies apart(
            a as int,
            r as nat,
            (#[trigger] g2.live[j]).addr as int,
            g2.live[j].rank,
        ) by {
            lemma_pow2_pos(r as nat);
            assert(g.is_free(a, r));
            if j != idx {
                assert(g2.live[j] == g.live[j]);
            } else {
                assert(apart(a as int, r as nat, g.live[idx].addr as int, g.live[idx].rank));
                assert(apart(a as int, r as nat, buddy as int, i as nat));
            }
        }
        assert forall|j: int, k: int|
            0 <= j < g2.live.len() && 0 <= k < g2.live.len() && j != k implies apart(
            (#[trigger] g2.live[j]).addr as int,
            g2.live[j].rank,
            (#[trigger] g2.live[k]).addr as int,
            g2.live[k].rank,
        ) by {
            let other = if j == idx { k } else { j };
            lemma_pow2_pos(g.live[other].rank);
            assert(apart(b.addr as int, b.rank, g.live[other].addr as int, g.live[other].rank));
            assert(apart(
                buddy as int,
                i as nat,
                g.live[other].addr as int,
                g.live[other].rank,
            ));
            if j != idx && k != idx {
                assert(apart(
                    g.live[j].addr as int,
                    g.live[j].rank,
                    g.live[k].addr as int,
                    g.live[k].rank,
                ));
            }
        }
    }
    lemma_free_bytes_update(g.free, i, rest, 32);
    assert((rest.len() - list.len()) * pow2(b.rank) == -pow2(b.rank)) by (nonlinear_arith)
        requires
            rest.len() == list.len() - 1,
    ;
    if g.aligned() {
        lemma_parent_aligned(b.addr as nat, pow2(b.rank));
        assert forall|j: int| 0 <= j < g2.live.len() implies (#[trigger] g2.live[j]).addr as nat
            % pow2(g2.live[j].rank) == 0 by {
            if j != idx {
                assert(g2.live[j] == g.live[j]);
            } else {
                assert(g.live[idx].addr as nat % pow2(b.rank) == 0);
            }
        }
    }
}

/// A block whose buddy is not free goes to the front of the list of its
/// class and is no longer live.
pub proof fn lemma_release(g: BuddyModel, m: ArenaModel, idx: int)
    requires
        m.wf(),
        g.inv(m),
        0 <= idx < g.live.len(),
    ensures
        forall|r: int| 0 <= r < 32 ==> !(#[trigger] g.free[r]).contains(g.live[idx].addr),
        ({
            let b = g.live[idx];
            let g2 = BuddyModel {
                free: g.free.update(b.rank as int, seq![b.addr] + g.free[b.rank as int]),
                live: g.live.remove(idx),
                unit_rank: g.unit_rank,
            };
            &&& g2.inv(m)
            &&& free_bytes(g2.free, 32) == free_bytes(g.free, 32) + pow2(b.rank)
            &&& (g.aligned() ==> g2.aligned())
        }),
{
    let b = g.live[idx];
    let i = b.rank as int;
    let list = seq![b.addr] + g.free[i];
    let g2 = BuddyModel {
        free: g.free.update(i, list),
        live: g.live.remove(idx),
        unit_rank: g.unit_rank,
    };
    lemma_pow2_pos(b.rank);
    assert forall|r: int| 0 <= r < 32 implies !(#[trigger] g.free[r]).contains(b.addr) by {
        if g.free[r].contains(b.addr) {
            assert(g.is_free(b.addr, r));
            lemma_pow2_pos(r as nat);
            assert(apart(b.addr as int, r as nat, g.live[idx].addr as int, g.live[idx].rank));
        }
    }
    assert forall|a: usize, r: int| #[trigger] g2.is_free(a, r) implies g.is_free(a, r) || (a
        == b.addr && r == i) by {
        if r == i {
            let k = choose|k: int| 0 <= k < list.len() && list[k] == a;
            if k > 0 {
                assert(g.free[i][k - 1] == a);
            }
        }
    }
    assert(g2.is_free(b.addr, i)) by {
        assert(list[0] == b.addr);
    }
    assert forall|r: int| 0 <= r < 32 implies (#[trigger] g2.free[r]).no_duplicates() by {
        assert(g.free[r].no_duplicates());
        if r == i {
            assert forall|x: int, y: int| 0 <= x < list.len() && 0 <= y < list.len() && x != y implies list[x]
                != list[y] by {
                if x > 0 {
                    assert(g.free[i].contains(list[x]));
                }
                if y > 0 {
                    assert(g.free[i].contains(list[y]));
                }
            }
        }
    }
    assert forall|j: int| 0 <= j < g2.live.len() implies #[trigger] g2.live[j] == g.live[if j
        < idx {
        j
    } else {
        j + 1
    }] by {}
    assert(g2.well_placed(m)) by {
        assert forall|j: int| 0 <= j < g2.live.len() implies {
            let c = #[trigger] g2.live[j];
            &&& g2.unit_rank <= c.rank < 32
            &&& c.size <= pow2(c.rank)
            &&& c.addr as int % (pow2(g2.unit_rank) as int) == 0
            &&& m.holds(c.addr)
            &&& m.holds_range(c.addr as int, pow2(c.rank) as int)
        } by {
            let jj = if j < idx { j } else { j + 1 };
            assert(g2.live[j] == g.live[jj]);
        }
    }
    assert(g2.separated()) by {
        assert forall|a1: usize, r1: int, a2: usize, r2: int|
            #[trigger] g2.is_free(a1, r1) && #[trigger] g2.is_free(a2, r2) && (a1 != a2 || r1
                != r2) implies apart(a1 as int, r1 as nat, a2 as int, r2 as nat) by {
            if a1 == b.addr && r1 == i {
                assert(g.is_free(a2, r2));
                assert(apart(a2 as int, r2 as nat, g.live[idx].addr as int, g.live[idx].rank));
            } else if a2 == b.addr && r2 == i {
                assert(g.is_free(a1, r1));
                assert(apart(a1 as int, r1 as nat, g.live[idx].addr as int, g.live[idx].rank));
            } else {
                assert(g.is_free(a1, r1) && g.is_free(a2, r2));
            }
        }
        assert forall|a: usize, r: int, j: int| #[trigger]
            g2.is_free(a, r) && 0 <= j < g2.live.len() implies apart(
            a as int,
            r as nat,
            (#[trigger] g2.live[j]).addr as int,
            g2.live[j].rank,
        ) by {
            let jj = if j < idx { j } else { j + 1 };
            assert(g2.live[j] == g.live[jj]);
            if a == b.addr && r == i {
                assert(apart(
                    g.live[idx].addr as int,
                    g.live[idx].rank,
                    g.live[jj].addr as int,
                    g.live[jj].rank,
                ));
            } else {
                assert(g.is_free(a, r));
            }
        }
        assert forall|j: int, k: int|
            0 <= j < g2.live.len() && 0 <= k < g2.live.len() && j != k implies apart(
            (#[trigger] g2.live[j]).addr as int,
            g2.live[j].rank,
            (#[trigger] g2.live[k]).addr as int,
            g2.live[k].rank,
        ) by {
            let jj = if j < idx { j } else { j + 1 };
            let kk = if k < idx { k } else { k + 1 };
            assert(g2.live[j] == g.live[jj]);
            assert(g2.live[k] == g.live[kk]);
            assert(apart(
                g.live[jj].addr as int,
                g.live[jj].rank,
                g.live[kk].addr as int,
                g.live[kk].rank,
            ));
        }
    }
    lemma_free_bytes_update(g.free, i, list, 32);
    assert((list.len() - g.free[i].len()) * pow2(b.rank) == pow2(b.rank)) by (nonlinear_arith)
        requires
            list.len() == g.free[i].len() + 1,
    ;
    if g.aligned() {
        assert forall|j: int| 0 <= j < g2.live.len() implies (#[trigger] g2.live[j]).addr as nat
            % pow2(g2.live[j].rank) == 0 by {
            let jj = if j < idx { j } else { j + 1 };
            assert(g2.live[j] == g.live[jj]);
        }
        assert forall|a: usize, r: int| #[trigger] g2.is_free(a, r) implies a as nat % pow2(
            r as nat,
        ) == 0 by {
            if a == b.addr && r == i {
                assert(g.live[idx].addr as nat % pow2(g.live[idx].rank) == 0);
            } else {
                assert(g.is_free(a, r));
            }
        }
    }
}

} // verus!

verus! {

/// Bit `r` of `len` is set.
pub open spec fn has_bit(len: nat, r: nat) -> bool {
    (len / pow2(r)) % 2 == 1
}

/// The free lists after the region of `len` bytes at `start` has been added,
/// as far as the classes below `k` go: for each bit of `len` one block of
/// that size, which starts where the smaller blocks end.
pub open spec fn region_state(free: Seq<Seq<usize>>, start: int, len: nat, k: nat) -> Seq<
    Seq<usize>,
> {
    Seq::new(
        32,
        |r: int|
            if r < k && has_bit(len, r as nat) {
                seq![(start + len % pow2(r as nat)) as usize] + free[r]
            } else {
                free[r]
            },
    )
}

/// Each block that the region of `len` bytes at `start` is cut into starts
/// at a multiple of its size.
pub open spec fn region_aligned(start: int, len: nat) -> bool {
    forall|r: nat|
        r < 32 && #[trigger] has_bit(len, r) ==> (start + len % pow2(r)) % (pow2(r) as int) == 0
}

/// The least multiple of `unit` that is no less than `x`.
pub open spec fn round_up(x: int, unit: int) -> int {
    if x % unit == 0 {
        x
    } else {
        x + unit - x % unit
    }
}

/// The greatest multiple of `unit` that is no greater than `x`.
pub open spec fn round_down(x: int, unit: int) -> int {
    x - x % unit
}

/// Two divides a positive multiple of `2^k` at least `k` times.
pub proof fn lemma_low_zeros_lower(n: nat, k: nat)
    requires
        n > 0,
        n % pow2(k) == 0,
    ensures
        crate::bits::low_zeros(n) >= k,
    decreases k,
{
    vstd::arithmetic::power2::lemma2_to64();
    if k > 0 {
        vstd::arithmetic::power2::lemma_pow2_unfold(k);
        let p = pow2((k - 1) as nat);
        lemma_pow2_pos((k - 1) as nat);
        let q = n / (2 * p);
        vstd::arithmetic::div_mod::lemma_fundamental_div_mod(n as int, (2 * p) as int);
        assert(n == 2 * (p * q)) by (nonlinear_arith)
            requires
                n == (2 * p) * q,
        ;
        assert(n / 2 == q * p) by (nonlinear_arith)
            requires
                n == 2 * (p * q),
        ;
        vstd::arithmetic::div_mod::lemma_mod_multiples_basic(q as int, p as int);
        lemma_low_zeros_lower(n / 2, (k - 1) as nat);
    }
}

/// What the lowest set bit of the rest of a region says of the region's
/// length: with `len % 2^k` bytes cut off, and `level` the number of low
/// zero bits of the rest, the bits of `len` from `k` up to `level` are
/// clear and bit `level` is set.
pub proof fn lemma_region_step(len: nat, k: nat, level: nat)
    requires
        len - len % pow2(k) > 0,
        level == crate::bits::low_zeros((len - len % pow2(k)) as nat),
    ensures
        k <= level,
        pow2(level) <= len,
        has_bit(len, level),
        len % pow2(level) == len % pow2(k),
        len % pow2(level + 1) == len % pow2(level) + pow2(level),
        forall|r: nat|
            k <= r < level ==> !has_bit(len, r) && len % #[trigger] pow2(r) == len % pow2(k),
{
    let small = len % pow2(k);
    let rem = (len - small) as nat;
    lemma_pow2_pos(k);
    vstd::arithmetic::div_mod::lemma_fundamental_div_mod(len as int, pow2(k) as int);
    assert(rem == (len / pow2(k)) * pow2(k)) by (nonlinear_arith)
        requires
            len == pow2(k) * (len / pow2(k)) + small,
            rem == len - small,
    ;
    vstd::arithmetic::div_mod::lemma_mod_multiples_basic((len / pow2(k)) as int, pow2(k) as int);
    lemma_low_zeros_lower(rem, k);
    crate::bits::lemma_low_zeros(rem);
    let odd = rem / pow2(level);
    lemma_pow2_pos(level);
    vstd::arithmetic::div_mod::lemma_fundamental_div_mod(rem as int, pow2(level) as int);
    crate::bits::lemma_pow2_monotone(k, level);
    assert forall|r: nat| k <= r <= level implies len / #[trigger] pow2(r) == pow2(
        (level - r) as nat,
    ) * odd && len % pow2(r) == small by {
        crate::bits::lemma_pow2_mod(level, r);
        crate::bits::lemma_pow2_monotone(k, r);
        lemma_pow2_pos(r);
        let c = pow2((level - r) as nat) * odd;
        assert(len == c * pow2(r) + small) by (nonlinear_arith)
            requires
                rem == pow2(level) * odd,
                pow2(level) == pow2(r) * pow2((level - r) as nat),
                len == rem + small,
                c == pow2((level - r) as nat) * odd,
        ;
        vstd::arithmetic::div_mod::lemma_fundamental_div_mod_converse(
            len as int,
            pow2(r) as int,
            c as int,
            small as int,
        );
    }
    assert(pow2(0) == 1) by {
        vstd::arithmetic::power2::lemma2_to64();
    }
    assert(len / pow2(level) == odd) by {
        assert(pow2((level - level) as nat) * odd == odd) by (nonlinear_arith)
            requires
                pow2((level - level) as nat) == 1,
        ;
    }
    assert forall|r: nat| k <= r < level implies !has_bit(len, r) && len % #[trigger] pow2(r)
        == len % pow2(k) by {
        vstd::arithmetic::power2::lemma_pow2_unfold((level - r) as nat);
        let half = pow2((level - r - 1) as nat);
        assert(pow2((level - r) as nat) * odd == (half * odd) * 2) by (nonlinear_arith)
            requires
                pow2((level - r) as nat) == 2 * half,
        ;
        vstd::arithmetic::div_mod::lemma_mod_multiples_basic((half * odd) as int, 2);
    }
    vstd::arithmetic::power2::lemma_pow2_unfold(level + 1);
    let t = odd / 2;
    let p = pow2(level);
    assert(len == t * (2 * p) + (p + small)) by (nonlinear_arith)
        requires
            rem == p * odd,
            odd == 2 * t + 1,
            len == rem + small,
    ;
    vstd::arithmetic::div_mod::lemma_fundamental_div_mod_converse(
        len as int,
        (2 * p) as int,
        t as int,
        (p + small) as int,
    );
    assert(p <= len) by (nonlinear_arith)
        requires
            rem == p * odd,
            odd >= 1,
            len == rem + small,
            small >= 0,
            p >= 0,
    ;
}

/// A multiple of `2^u` has no bit below `u`.
pub proof fn lemma_low_bits_clear(len: nat, u: nat)
    requires
        len % pow2(u) == 0,
    ensures
        forall|r: nat| r < u ==> !#[trigger] has_bit(len, r),
{
    assert forall|r: nat| r < u implies !#[trigger] has_bit(len, r) by {
        crate::bits::lemma_pow2_mod(u, r);
        lemma_pow2_pos(r);
        lemma_pow2_pos(u);
        vstd::arithmetic::power2::lemma_pow2_unfold((u - r) as nat);
        let c = len / pow2(u);
        let half = pow2((u - r - 1) as nat);
        vstd::arithmetic::div_mod::lemma_fundamental_div_mod(len as int, pow2(u) as int);
        assert(len == (2 * (half * c)) * pow2(r) + 0) by (nonlinear_arith)
            requires
                len == pow2(u) * c,
                pow2(u) == pow2(r) * pow2((u - r) as nat),
                pow2((u - r) as nat) == 2 * half,
        ;
        vstd::arithmetic::div_mod::lemma_fundamental_div_mod_converse(
            len as int,
            pow2(r) as int,
            (2 * (half * c)) as int,
            0,
        );
    }
}

/// A block that overlaps no other can join the free list of its class.
pub proof fn lemma_add_block(g: BuddyModel, m: ArenaModel, addr: usize, rank: int)
    requires
        m.wf(),
        g.inv(m),
        g.unit_rank <= rank < 32,
        m.holds(addr),
        addr as int % (pow2(g.unit_rank) as int) == 0,
        m.holds_range(addr as int, pow2(rank as nat) as int),
        forall|a: usize, r: int| #[trigger]
            g.is_free(a, r) ==> apart(a as int, r as nat, addr as int, rank as nat),
        forall|j: int|
            0 <= j < g.live.len() ==> apart(
                (#[trigger] g.live[j]).addr as int,
                g.live[j].rank,
                addr as int,
                rank as nat,
            ),
    ensures
        forall|r: int| 0 <= r < 32 ==> !(#[trigger] g.free[r]).contains(addr),
        ({
            let g2 = BuddyModel {
                free: g.free.update(rank, seq![addr] + g.free[rank]),
                live: g.live,
                unit_rank: g.unit_rank,
            };
            &&& g2.inv(m)
            &&& free_bytes(g2.free, 32) == free_bytes(g.free, 32) + pow2(rank as nat)
            &&& (g.aligned() && addr as nat % pow2(rank as nat) == 0 ==> g2.aligned())
            &&& forall|a: usize, r: int| #[trigger]
                g2.is_free(a, r) <==> g.is_free(a, r) || (a == addr && r == rank)
        }),
{
    let list = seq![addr] + g.free[rank];
    let g2 = BuddyModel { free: g.free.update(rank, list), live: g.live, unit_rank: g.unit_rank };
    lemma_pow2_pos(rank as nat);
    assert forall|r: int| 0 <= r < 32 implies !(#[trigger] g.free[r]).contains(addr) by {
        if g.free[r].contains(addr) {
            assert(g.is_free(addr, r));
            lemma_pow2_pos(r as nat);
        }
    }
    assert forall|a: usize, r: int| #[trigger] g2.is_free(a, r) implies g.is_free(a, r) || (a
        == addr && r == rank) by {
        if r == rank {
            let k = choose|k: int| 0 <= k < list.len() && list[k] == a;
            if k > 0 {
                assert(g.free[rank][k - 1] == a);
            }
        }
    }
    assert forall|a: usize, r: int| g.is_free(a, r) || (a == addr && r == rank) implies #[trigger] g2.is_free(
        a,
        r,
    ) by {
        if a == addr && r == rank {
            assert(list[0] == addr);
        } else if r == rank {
            let k = choose|k: int| 0 <= k < g.free[rank].len() && g.free[rank][k] == a;
            assert(list[k + 1] == a);
        }
    }
    assert forall|r: int| 0 <= r < 32 implies (#[trigger] g2.free[r]).no_duplicates() by {
        assert(g.free[r].no_duplicates());
        if r == rank {
            assert forall|x: int, y: int| 0 <= x < list.len() && 0 <= y < list.len() && x != y implies list[x]
                != list[y] by {
                if x > 0 {
                    assert(g.free[rank].contains(list[x]));
                }
                if y > 0 {
                    assert(g.free[rank].contains(list[y]));
                }
            }
        }
    }
    assert(g2.well_placed(m));
    assert(g2.separated()) by {
        assert forall|a1: usize, r1: int, a2: usize, r2: int|
            #[trigger] g2.is_free(a1, r1) && #[trigger] g2.is_free(a2, r2) && (a1 != a2 || r1
                != r2) implies apart(a1 as int, r1 as nat, a2 as int, r2 as nat) by {
            if a1 == addr && r1 == rank {
                assert(g.is_free(a2, r2));
            } else if a2 == addr && r2 == rank {
                assert(g.is_free(a1, r1));
            } else {
                assert(g.is_free(a1, r1) && g.is_free(a2, r2));
            }
        }
        assert forall|a: usize, r: int, j: int| #[trigger]
            g2.is_free(a, r) && 0 <= j < g2.live.len() implies apart(
            a as int,
            r as nat,
            (#[trigger] g2.live[j]).addr as int,
            g2.live[j].rank,
        ) by {
            if !(a == addr && r == rank) {
                assert(g.is_free(a, r));
            }
        }
    }
    lemma_free_bytes_update(g.free, rank, list, 32);
    assert((list.len() - g.free[rank].len()) * pow2(rank as nat) == pow2(rank as nat))
        by (nonlinear_arith)
        requires
            list.len() == g.free[rank].len() + 1,
    ;
}

} // verus!
