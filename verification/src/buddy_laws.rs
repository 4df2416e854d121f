//! What holds of the buddy allocator over whole runs of requests: a heap in
//! which no two free blocks are buddies has its free bytes cut into blocks in
//! one way only, so that a heap whose blocks have all come back is cut as it
//! was at the start.

use vstd::prelude::*;
use vstd::arithmetic::power2::{lemma_pow2_pos, pow2};
use crate::arena::ArenaModel;
use crate::bits::{buddy_of, lemma_pow2_mod, lemma_pow2_rank};
use crate::buddy_model::{apart, BuddyModel};

verus! {

/// The byte at `x` is a byte of the block of class `r` at `a`.
pub open spec fn inside(x: int, a: int, r: nat) -> bool {
    a <= x < a + pow2(r)
}

impl BuddyModel {
    /// The byte at `x` is a byte of a free block.
    pub open spec fn covers_free(self, x: int) -> bool {
        exists|a: usize, r: int| #[trigger] self.is_free(a, r) && inside(x, a as int, r as nat)
    }

    /// The byte at `x` is a byte of a live block.
    pub open spec fn covers_live(self, x: int) -> bool {
        exists|j: int|
            0 <= j < self.live.len() && inside(
                x,
                (#[trigger] self.live[j]).addr as int,
                self.live[j].rank,
            )
    }

    /// The byte at `x` is a byte of the heap: of a free block or of a live
    /// one.
    pub open spec fn holds(self, x: int) -> bool {
        self.covers_free(x) || self.covers_live(x)
    }

    /// The buddy of the block of class `r` at `a` is free.
    pub open spec fn paired(self, a: usize, r: int) -> bool {
        0 <= buddy_of(a, r as nat) <= usize::MAX && self.is_free(buddy_of(a, r as nat) as usize, r)
    }

    /// Every block starts at a multiple of its size, and no free block has
    /// a free buddy.
    pub open spec fn canonical(self) -> bool {
        &&& self.aligned()
        &&& forall|a: usize, r: int| #[trigger] self.is_free(a, r) ==> !self.paired(a, r)
    }

    /// The block of class `d` at `b` lies in a free block.
    pub open spec fn within_free(self, b: int, d: nat) -> bool {
        exists|a: usize, r: int|
            #[trigger] self.is_free(a, r) && r >= d && a <= b && b + pow2(d) <= a + pow2(r as nat)
    }
}

/// A multiple of `d` that lies no more than `d - 1` below `x` is `d` times
/// the quotient of `x` by `d`.
pub proof fn lemma_block_start(a: int, d: int, x: int)
    requires
        d > 0,
        a % d == 0,
        a <= x < a + d,
    ensures
        a == d * (x / d),
{
    vstd::arithmetic::div_mod::lemma_fundamental_div_mod(a, d);
    let q = a / d;
    assert(x == q * d + (x - a)) by (nonlinear_arith)
        requires
            a == d * q,
    ;
    vstd::arithmetic::div_mod::lemma_fundamental_div_mod_converse(x, d, q, x - a);
}

/// Of two blocks that start at multiples of their sizes and share a byte,
/// the smaller lies in the larger.
pub proof fn lemma_nested(a: int, r: nat, b: int, s: nat, x: int)
    requires
        r <= s,
        a >= 0,
        b >= 0,
        a % (pow2(r) as int) == 0,
        b % (pow2(s) as int) == 0,
        inside(x, a, r),
        inside(x, b, s),
    ensures
        b <= a,
        a + pow2(r) <= b + pow2(s),
{
    let d = pow2(r) as int;
    let e = pow2(s) as int;
    lemma_pow2_pos(r);
    lemma_pow2_pos(s);
    lemma_pow2_mod(s, r);
    let k = pow2((s - r) as nat) as int;
    lemma_pow2_pos((s - r) as nat);
    crate::bits::lemma_mod_trans(b, e, d);
    lemma_block_start(a, d, x);
    let i = x / d;
    vstd::arithmetic::div_mod::lemma_fundamental_div_mod(b, d);
    let j = b / d;
    // b = d * j <= x, so j <= i
    assert(j <= i) by (nonlinear_arith)
        requires
            d > 0,
            b == d * j,
            a == d * i,
            b <= x,
            x < a + d,
    ;
    assert(d * j <= d * i) by (nonlinear_arith)
        requires
            j <= i,
            d > 0,
    ;
    // x < b + e = d * (j + k), so i < j + k
    assert(i < j + k) by (nonlinear_arith)
        requires
            d > 0,
            b == d * j,
            a == d * i,
            e == d * k,
            a <= x,
            x < b + e,
    ;
    assert(d * i + d <= d * j + d * k) by (nonlinear_arith)
        requires
            i + 1 <= j + k,
            d > 0,
    ;
}

/// The upper half of a block that starts at a multiple of its size is the
/// buddy of the lower half, and both halves start at multiples of their
/// size.
pub proof fn lemma_halves(b: usize, d: nat)
    requires
        0 < d < 32,
        b as int % (pow2(d) as int) == 0,
        b + pow2(d) <= usize::MAX,
    ensures
        b as int % (pow2((d - 1) as nat) as int) == 0,
        (b + pow2((d - 1) as nat)) % (pow2((d - 1) as nat) as int) == 0,
        buddy_of(b, (d - 1) as nat) == b + pow2((d - 1) as nat),
        pow2(d) == 2 * pow2((d - 1) as nat),
{
    let h = pow2((d - 1) as nat);
    lemma_pow2_rank(d);
    lemma_pow2_pos((d - 1) as nat);
    crate::buddy_model::lemma_half_aligned(b as nat, h);
    vstd::arithmetic::div_mod::lemma_fundamental_div_mod(b as int, (2 * h) as int);
    let q = b as int / (2 * h) as int;
    assert(b == (2 * q) * h) by (nonlinear_arith)
        requires
            b == (2 * h) * q,
    ;
    vstd::arithmetic::div_mod::lemma_fundamental_div_mod_converse(
        b as int,
        h as int,
        2 * q,
        0,
    );
    assert((b as nat / h) % 2 == 0);
}

/// In a heap in which no two free blocks are buddies, a block that starts at
/// a multiple of its size and whose bytes are all free lies in one free
/// block.
pub proof fn lemma_covered_block(g: BuddyModel, m: ArenaModel, b: usize, d: nat)
    requires
        m.wf(),
        g.inv(m),
        g.canonical(),
        d < 32,
        b as int % (pow2(d) as int) == 0,
        b + pow2(d) <= usize::MAX,
        forall|x: int| inside(x, b as int, d) ==> g.covers_free(x),
    ensures
        g.within_free(b as int, d),
    decreases d,
{
    lemma_pow2_pos(d);
    assert(inside(b as int, b as int, d));
    assert(g.covers_free(b as int));
    let (a, r) = choose|a: usize, r: int|
        #[trigger] g.is_free(a, r) && inside(b as int, a as int, r as nat);
    assert(g.is_free(a, r));
    if r >= d {
        lemma_nested(b as int, d, a as int, r as nat, b as int);
    } else {
        let h = pow2((d - 1) as nat);
        lemma_halves(b, d);
        let up = (b + h) as usize;
        assert forall|x: int| inside(x, b as int, (d - 1) as nat) implies g.covers_free(x) by {
            assert(inside(x, b as int, d));
        }
        assert forall|x: int| inside(x, up as int, (d - 1) as nat) implies g.covers_free(x) by {
            assert(inside(x, b as int, d));
        }
        lemma_covered_block(g, m, b, (d - 1) as nat);
        lemma_covered_block(g, m, up, (d - 1) as nat);
        let (a1, r1) = choose|a1: usize, r1: int|
            #[trigger] g.is_free(a1, r1) && r1 >= d - 1 && a1 <= b && b + h <= a1 + pow2(
                r1 as nat,
            );
        let (a2, r2) = choose|a2: usize, r2: int|
            #[trigger] g.is_free(a2, r2) && r2 >= d - 1 && a2 <= up && up + h <= a2 + pow2(
                r2 as nat,
            );
        assert(g.is_free(a1, r1) && g.is_free(a2, r2));
        if r1 >= d {
            lemma_pow2_pos(r1 as nat);
            lemma_nested(b as int, d, a1 as int, r1 as nat, b as int);
        } else if r2 >= d {
            lemma_pow2_pos(r2 as nat);
            lemma_nested(b as int, d, a2 as int, r2 as nat, up as int);
        } else {
            // both halves are free blocks, and they are buddies
            assert(a1 == b);
            assert(a2 == up);
            assert(g.paired(b, d - 1));
            assert(!g.paired(a1, r1));
        }
    }
}

/// Two heaps in which no two free blocks are buddies and whose free bytes
/// are the same have the same free blocks.
pub proof fn lemma_same_blocks(g: BuddyModel, h: BuddyModel, m: ArenaModel, a: usize, r: int)
    requires
        m.wf(),
        g.inv(m),
        h.inv(m),
        g.canonical(),
        h.canonical(),
        forall|x: int| g.covers_free(x) == h.covers_free(x),
        g.is_free(a, r),
    ensures
        h.is_free(a, r),
{
    lemma_pow2_pos(r as nat);
    assert forall|x: int| inside(x, a as int, r as nat) implies h.covers_free(x) by {
        assert(g.covers_free(x));
    }
    lemma_covered_block(h, m, a, r as nat);
    let (b, s) = choose|b: usize, s: int|
        #[trigger] h.is_free(b, s) && s >= r && b <= a && a + pow2(r as nat) <= b + pow2(s as nat);
    assert(h.is_free(b, s));
    if s > r {
        lemma_pow2_pos(s as nat);
        crate::bits::lemma_pow2_monotone((r + 1) as nat, s as nat);
        lemma_pow2_rank((r + 1) as nat);
        assert forall|x: int| inside(x, b as int, s as nat) implies g.covers_free(x) by {
            assert(h.covers_free(x));
        }
        lemma_covered_block(g, m, b, s as nat);
        let (c, t) = choose|c: usize, t: int|
            #[trigger] g.is_free(c, t) && t >= s && c <= b && b + pow2(s as nat) <= c + pow2(
                t as nat,
            );
        assert(g.is_free(c, t));
        // the free block of class `t` holds the free block of class `r`
        assert(apart(a as int, r as nat, c as int, t as nat));
    } else {
        assert(b == a) by {
            lemma_nested(a as int, r as nat, b as int, s as nat, a as int);
        }
    }
}

} // verus!

verus! {

impl BuddyModel {
    /// No free block has a free buddy.
    pub open spec fn no_pairs(self) -> bool {
        forall|a: usize, r: int| #[trigger] self.is_free(a, r) ==> !self.paired(a, r)
    }
}

/// The buddy of the buddy of a block is the block.
pub proof fn lemma_involution(a: usize, r: nat)
    requires
        0 <= buddy_of(a, r) <= usize::MAX,
    ensures
        buddy_of(buddy_of(a, r) as usize, r) == a,
{
    let d = pow2(r) as int;
    lemma_pow2_pos(r);
    let q = a as int / d;
    vstd::arithmetic::div_mod::lemma_fundamental_div_mod(a as int, d);
    vstd::arithmetic::div_mod::lemma_mod_bound(a as int, d);
    if q % 2 == 0 {
        assert(a + d == (q + 1) * d + a as int % d) by (nonlinear_arith)
            requires
                a == d * q + a as int % d,
        ;
        vstd::arithmetic::div_mod::lemma_fundamental_div_mod_converse(
            a + d,
            d,
            q + 1,
            a as int % d,
        );
    } else {
        assert(a - d == (q - 1) * d + a as int % d) by (nonlinear_arith)
            requires
                a == d * q + a as int % d,
        ;
        vstd::arithmetic::div_mod::lemma_fundamental_div_mod_converse(
            a - d,
            d,
            q - 1,
            a as int % d,
        );
    }
}

/// A block and its buddy are the two halves of their parent.
pub proof fn lemma_parent(a: usize, r: nat, x: int)
    requires
        0 <= buddy_of(a, r) <= usize::MAX,
        r < 31,
    ensures
        inside(x, crate::buddy_model::parent_of(a, r) as int, r + 1) == (inside(x, a as int, r)
            || inside(x, buddy_of(a, r), r)),
{
    lemma_pow2_rank(r + 1);
}

/// Where a block that is being given back joins its free buddy, the bytes
/// of the heap stay the same, and no new pair of free buddies comes up.
pub proof fn lemma_absorb_law(g: BuddyModel, m: ArenaModel, idx: int)
    requires
        m.wf(),
        g.inv(m),
        0 <= idx < g.live.len(),
        0 <= buddy_of(g.live[idx].addr, g.live[idx].rank) <= usize::MAX,
        g.free[g.live[idx].rank as int].contains(
            buddy_of(g.live[idx].addr, g.live[idx].rank) as usize,
        ),
    ensures
        ({
            let b = g.live[idx];
            let buddy = buddy_of(b.addr, b.rank) as usize;
            let g2 = BuddyModel {
                free: g.free.update(
                    b.rank as int,
                    crate::buddy_model::without(g.free[b.rank as int], buddy),
                ),
                live: g.live.update(
                    idx,
                    crate::buddy_model::LiveBlock {
                        addr: crate::buddy_model::parent_of(b.addr, b.rank),
                        rank: b.rank + 1,
                        size: b.size,
                    },
                ),
                unit_rank: g.unit_rank,
            };
            &&& forall|x: int| g2.holds(x) == g.holds(x)
            &&& (g.no_pairs() ==> g2.no_pairs())
        }),
{
    let b = g.live[idx];
    let i = b.rank as int;
    let buddy = buddy_of(b.addr, b.rank) as usize;
    let parent = crate::buddy_model::parent_of(b.addr, b.rank);
    let list = g.free[i];
    let rest = crate::buddy_model::without(list, buddy);
    let nb = crate::buddy_model::LiveBlock { addr: parent, rank: b.rank + 1, size: b.size };
    let g2 = BuddyModel {
        free: g.free.update(i, rest),
        live: g.live.update(idx, nb),
        unit_rank: g.unit_rank,
    };
    crate::buddy_model::lemma_absorb_buddy(g, m, idx);
    assert(g.is_free(buddy, i));
    assert(list.no_duplicates());
    crate::linked_list::lemma_remove_distinct(list, list.index_of(buddy));
    assert forall|a: usize, r: int| g.is_free(a, r) && !(a == buddy && r == i) implies #[trigger] g2.is_free(
        a,
        r,
    ) by {}
    assert forall|x: int| g2.holds(x) == g.holds(x) by {
        lemma_parent(b.addr, b.rank, x);
        if g.holds(x) {
            if g.covers_free(x) {
                let (a, r) = choose|a: usize, r: int|
                    #[trigger] g.is_free(a, r) && inside(x, a as int, r as nat);
                if a == buddy && r == i {
                    assert(g2.live[idx] == nb);
                    assert(inside(x, g2.live[idx].addr as int, g2.live[idx].rank));
                    assert(g2.covers_live(x));
                } else {
                    assert(g2.is_free(a, r));
                    assert(g2.covers_free(x));
                }
            } else {
                let j = choose|j: int|
                    0 <= j < g.live.len() && inside(
                        x,
                        (#[trigger] g.live[j]).addr as int,
                        g.live[j].rank,
                    );
                if j == idx {
                    assert(g2.live[idx] == nb);
                    assert(inside(x, g2.live[idx].addr as int, g2.live[idx].rank));
                } else {
                    assert(g2.live[j] == g.live[j]);
                    assert(inside(x, g2.live[j].addr as int, g2.live[j].rank));
                }
                assert(g2.covers_live(x));
            }
        }
        if g2.holds(x) {
            if g2.covers_free(x) {
                let (a, r) = choose|a: usize, r: int|
                    #[trigger] g2.is_free(a, r) && inside(x, a as int, r as nat);
                assert(g.is_free(a, r));
                assert(g.covers_free(x));
            } else {
                let j = choose|j: int|
                    0 <= j < g2.live.len() && inside(
                        x,
                        (#[trigger] g2.live[j]).addr as int,
                        g2.live[j].rank,
                    );
                if j == idx {
                    assert(g2.live[idx] == nb);
                    if inside(x, b.addr as int, b.rank) {
                        assert(inside(x, g.live[idx].addr as int, g.live[idx].rank));
                        assert(g.covers_live(x));
                    } else {
                        assert(g.covers_free(x));
                    }
                } else {
                    assert(g2.live[j] == g.live[j]);
                    assert(inside(x, g.live[j].addr as int, g.live[j].rank));
                    assert(g.covers_live(x));
                }
            }
        }
    }
    if g.no_pairs() {
        assert forall|a: usize, r: int| #[trigger] g2.is_free(a, r) implies !g2.paired(a, r) by {
            assert(g.is_free(a, r));
            if g2.paired(a, r) {
                assert(g.is_free(buddy_of(a, r as nat) as usize, r));
                assert(g.paired(a, r));
            }
        }
    }
}

/// Where a block that is given back goes to the free list of its class, the
/// bytes of the heap stay the same; and where its buddy is not free, no pair
/// of free buddies comes up.
pub proof fn lemma_release_law(g: BuddyModel, m: ArenaModel, idx: int)
    requires
        m.wf(),
        g.inv(m),
        0 <= idx < g.live.len(),
    ensures
        ({
            let b = g.live[idx];
            let g2 = BuddyModel {
                free: g.free.update(b.rank as int, seq![b.addr] + g.free[b.rank as int]),
                live: g.live.remove(idx),
                unit_rank: g.unit_rank,
            };
            &&& forall|x: int| g2.holds(x) == g.holds(x)
            &&& (g.no_pairs() && !(0 <= buddy_of(b.addr, b.rank) <= usize::MAX
                && g.free[b.rank as int].contains(buddy_of(b.addr, b.rank) as usize))
                ==> g2.no_pairs())
        }),
{
    let b = g.live[idx];
    let i = b.rank as int;
    let list = seq![b.addr] + g.free[i];
    let g2 = BuddyModel {
        free: g.free.update(i, list),
        live: g.live.remove(idx),
        unit_rank: g.unit_rank,
    };
    crate::buddy_model::lemma_release(g, m, idx);
    assert forall|a: usize, r: int| #[trigger] g2.is_free(a, r) implies g.is_free(a, r) || (a
        == b.addr && r == i) by {
        if r == i {
            let k = choose|k: int| 0 <= k < list.len() && list[k] == a;
            if k > 0 {
                assert(g.free[i][k - 1] == a);
            }
        }
    }
    assert forall|a: usize, r: int| g.is_free(a, r) implies #[trigger] g2.is_free(a, r) by {
        if r == i {
            let k = choose|k: int| 0 <= k < g.free[i].len() && g.free[i][k] == a;
            assert(list[k + 1] == a);
        }
    }
    assert(g2.is_free(b.addr, i)) by {
        assert(list[0] == b.addr);
    }
    assert forall|x: int| g2.holds(x) == g.holds(x) by {
        if g.holds(x) {
            if g.covers_free(x) {
                let (a, r) = choose|a: usize, r: int|
                    #[trigger] g.is_free(a, r) && inside(x, a as int, r as nat);
                assert(g2.is_free(a, r));
                assert(g2.covers_free(x));
            } else {
                let j = choose|j: int|
                    0 <= j < g.live.len() && inside(
                        x,
                        (#[trigger] g.live[j]).addr as int,
                        g.live[j].rank,
                    );
                if j == idx {
                    assert(g2.is_free(b.addr, i) && inside(x, b.addr as int, i as nat));
                    assert(g2.covers_free(x));
                } else {
                    let jj = if j < idx { j } else { j - 1 };
                    assert(g2.live[jj] == g.live[j]);
                    assert(inside(x, g2.live[jj].addr as int, g2.live[jj].rank));
                    assert(g2.covers_live(x));
                }
            }
        }
        if g2.holds(x) {
            if g2.covers_free(x) {
                let (a, r) = choose|a: usize, r: int|
                    #[trigger] g2.is_free(a, r) && inside(x, a as int, r as nat);
                if a == b.addr && r == i {
                    assert(inside(x, g.live[idx].addr as int, g.live[idx].rank));
                    assert(g.covers_live(x));
                } else {
                    assert(g.is_free(a, r));
                    assert(g.covers_free(x));
                }
            } else {
                let j = choose|j: int|
                    0 <= j < g2.live.len() && inside(
                        x,
                        (#[trigger] g2.live[j]).addr as int,
                        g2.live[j].rank,
                    );
                let jj = if j < idx { j } else { j + 1 };
                assert(g2.live[j] == g.live[jj]);
                assert(inside(x, g.live[jj].addr as int, g.live[jj].rank));
                assert(g.covers_live(x));
            }
        }
    }
    if g.no_pairs() && !(0 <= buddy_of(b.addr, b.rank) <= usize::MAX && g.free[i].contains(
        buddy_of(b.addr, b.rank) as usize,
    )) {
        assert forall|a: usize, r: int| #[trigger] g2.is_free(a, r) implies !g2.paired(a, r) by {
            if g2.paired(a, r) {
                let c = buddy_of(a, r as nat) as usize;
                assert(g2.is_free(c, r));
                lemma_involution(a, r as nat);
                if a == b.addr && r == i {
                    lemma_pow2_pos(b.rank);
                    assert(c != b.addr);
                    assert(g.is_free(c, i) || (c == b.addr && i == i));
                    assert(g.is_free(c, i));
                    assert(g.free[i].contains(c));
                } else {
                    assert(g.is_free(a, r));
                    if c == b.addr && r == i {
                        assert(buddy_of(b.addr, b.rank) == a);
                        assert(g.free[i].contains(a));
                    } else {
                        assert(g.is_free(c, r));
                        assert(g.paired(a, r));
                    }
                }
            }
        }
    }
}

/// The heap after the live block `idx` has been given back.
pub open spec fn given_back(g: BuddyModel, idx: int) -> BuddyModel {
    BuddyModel {
        free: crate::buddy_model::coalesce(g.free, g.live[idx].rank, g.live[idx].addr),
        live: g.live.remove(idx),
        unit_rank: g.unit_rank,
    }
}

/// Giving a block back leaves the bytes of the heap what they are, and
/// brings up no pair of free buddies.
pub proof fn lemma_dealloc_law(g: BuddyModel, m: ArenaModel, idx: int)
    requires
        m.wf(),
        g.inv(m),
        0 <= idx < g.live.len(),
    ensures
        forall|x: int| given_back(g, idx).holds(x) == g.holds(x),
        g.no_pairs() ==> given_back(g, idx).no_pairs(),
    decreases 32 - g.live[idx].rank,
{
    let b = g.live[idx];
    let i = b.rank as int;
    assert(b.rank < 32);
    let bud = buddy_of(b.addr, b.rank);
    if 0 <= bud <= usize::MAX && g.free[i].contains(bud as usize) {
        let buddy = bud as usize;
        let nb = crate::buddy_model::LiveBlock {
            addr: crate::buddy_model::parent_of(b.addr, b.rank),
            rank: b.rank + 1,
            size: b.size,
        };
        let g2 = BuddyModel {
            free: g.free.update(i, crate::buddy_model::without(g.free[i], buddy)),
            live: g.live.update(idx, nb),
            unit_rank: g.unit_rank,
        };
        crate::buddy_model::lemma_absorb_buddy(g, m, idx);
        lemma_absorb_law(g, m, idx);
        assert(g2.live[idx] == nb);
        lemma_dealloc_law(g2, m, idx);
        assert(g2.live.remove(idx) =~= g.live.remove(idx));
        assert(given_back(g2, idx) == given_back(g, idx));
        assert forall|x: int| given_back(g, idx).holds(x) == g.holds(x) by {
            assert(given_back(g2, idx).holds(x) == g2.holds(x));
            assert(g2.holds(x) == g.holds(x));
        }
    } else {
        lemma_release_law(g, m, idx);
    }
}

} // verus!

verus! {

/// A block is made of its lower part of class `level` and, for each class
/// from `level` up to its own, of the block of that class that starts that
/// many bytes above its start.
pub proof fn lemma_carved(p: int, level: nat, top: nat, x: int)
    requires
        level <= top < 32,
    ensures
        inside(x, p, top) == (inside(x, p, level) || exists|r: nat|
            level <= r < top && #[trigger] inside(x, p + pow2(r), r)),
    decreases top - level,
{
    if level < top {
        lemma_carved(p, level, (top - 1) as nat, x);
        lemma_pow2_rank(top);
        let rest = exists|r: nat| level <= r < top - 1 && #[trigger] inside(x, p + pow2(r), r);
        let all = exists|r: nat| level <= r < top && #[trigger] inside(x, p + pow2(r), r);
        if rest {
            let r = choose|r: nat| level <= r < top - 1 && #[trigger] inside(x, p + pow2(r), r);
            assert(level <= r < top && inside(x, p + pow2(r), r));
        }
        let last = (top - 1) as nat;
        if inside(x, p + pow2(last), last) {
            assert(level <= last && last < top);
        }
        if all {
            let r = choose|r: nat| level <= r < top && #[trigger] inside(x, p + pow2(r), r);
            if r < top - 1 {
                assert(level <= r < top - 1 && inside(x, p + pow2(r), r));
            }
        }
    }
}

/// The address `2^r` bytes above `p`.
pub open spec fn upper_half(p: int, r: int) -> int {
    p + pow2(r as nat)
}

/// The heap after a block of class `level` has been taken for `size` bytes.
pub open spec fn taken(g: BuddyModel, level: int, size: nat) -> BuddyModel {
    BuddyModel {
        free: g.carve(level),
        live: g.live.push(
            crate::buddy_model::LiveBlock {
                addr: g.free[g.first_fit(level)][0],
                rank: level as nat,
                size,
            },
        ),
        unit_rank: g.unit_rank,
    }
}

/// Taking a block leaves the bytes of the heap what they are, and brings up
/// no pair of free buddies.
pub proof fn lemma_alloc_law(g: BuddyModel, m: ArenaModel, level: int, size: nat)
    requires
        m.wf(),
        g.inv(m),
        g.unit_rank <= level < 32,
        g.first_fit(level) < 32,
    ensures
        forall|x: int| taken(g, level, size).holds(x) == g.holds(x),
        g.canonical() ==> taken(g, level, size).no_pairs(),
{
    let top = g.first_fit(level);
    crate::buddy_model::lemma_first_fit(g, level);
    let p = g.free[top][0];
    let g2 = taken(g, level, size);
    let block = crate::buddy_model::LiveBlock { addr: p, rank: level as nat, size };
    assert(g.free[top].contains(p));
    assert(g.is_free(p, top));
    lemma_pow2_rank(top as nat);
    assert forall|r: int| level <= r < top implies #[trigger] upper_half(p as int, r)
        <= usize::MAX && upper_half(p as int, r) + pow2(r as nat) <= p + pow2(top as nat) by {
        crate::bits::lemma_pow2_monotone((r + 1) as nat, top as nat);
        lemma_pow2_rank((r + 1) as nat);
    }
    assert forall|a: usize, r: int| #[trigger] g2.is_free(a, r) implies (g.is_free(a, r) && !(a
        == p && r == top)) || (level <= r < top && a == p + pow2(r as nat)) by {
        if level <= r < top {
            assert(upper_half(p as int, r) <= usize::MAX);
        }
        if r == top {
            assert(g.free[top].no_duplicates());
            let k = choose|k: int|
                0 <= k < g.free[top].drop_first().len() && g.free[top].drop_first()[k] == a;
            assert(g.free[top][k + 1] == a);
        } else if level <= r < top {
            let one = seq![(p + pow2(r as nat)) as usize];
            let k = choose|k: int| 0 <= k < one.len() && one[k] == a;
            assert(k == 0);
        }
    }
    assert forall|a: usize, r: int| g.is_free(a, r) && !(a == p && r == top) implies #[trigger] g2.is_free(
        a,
        r,
    ) by {
        let k = choose|k: int| 0 <= k < g.free[r].len() && g.free[r][k] == a;
        if r == top {
            assert(g.free[top].drop_first()[k - 1] == a);
        } else if level <= r < top {
            assert(g.free[r].len() == 0);
        }
    }
    assert forall|r: int| level <= r < top implies g2.is_free(
        (#[trigger] upper_half(p as int, r)) as usize,
        r,
    ) by {
        let one = seq![(p + pow2(r as nat)) as usize];
        assert(one[0] == (p + pow2(r as nat)) as usize);
    }
    assert forall|x: int| g2.holds(x) == g.holds(x) by {
        lemma_carved(p as int, level as nat, top as nat, x);
        if g.holds(x) {
            if g.covers_free(x) {
                let (a, r) = choose|a: usize, r: int|
                    #[trigger] g.is_free(a, r) && inside(x, a as int, r as nat);
                if a == p && r == top {
                    if inside(x, p as int, level as nat) {
                        assert(g2.live[g2.live.len() - 1] == block);
                        assert(inside(
                            x,
                            g2.live[g2.live.len() - 1].addr as int,
                            g2.live[g2.live.len() - 1].rank,
                        ));
                        assert(g2.covers_live(x));
                    } else {
                        let s = choose|s: nat|
                            level <= s < top && #[trigger] inside(x, p + pow2(s), s);
                        let up = upper_half(p as int, s as int);
                        assert(up <= usize::MAX);
                        assert(g2.is_free(up as usize, s as int));
                        assert(inside(x, (up as usize) as int, s));
                        assert(g2.covers_free(x));
                    }
                } else {
                    assert(g2.is_free(a, r));
                    assert(g2.covers_free(x));
                }
            } else {
                let j = choose|j: int|
                    0 <= j < g.live.len() && inside(
                        x,
                        (#[trigger] g.live[j]).addr as int,
                        g.live[j].rank,
                    );
                assert(g2.live[j] == g.live[j]);
                assert(inside(x, g2.live[j].addr as int, g2.live[j].rank));
                assert(g2.covers_live(x));
            }
        }
        if g2.holds(x) {
            if g2.covers_free(x) {
                let (a, r) = choose|a: usize, r: int|
                    #[trigger] g2.is_free(a, r) && inside(x, a as int, r as nat);
                if g.is_free(a, r) {
                    assert(g.covers_free(x));
                } else {
                    assert(level <= r < top && a == p + pow2(r as nat));
                    assert(upper_half(p as int, r) + pow2(r as nat) <= p + pow2(top as nat));
                    assert(inside(x, p + pow2(r as nat), r as nat));
                    assert(inside(x, p as int, top as nat));
                    assert(g.covers_free(x));
                }
            } else {
                let j = choose|j: int|
                    0 <= j < g2.live.len() && inside(
                        x,
                        (#[trigger] g2.live[j]).addr as int,
                        g2.live[j].rank,
                    );
                if j < g.live.len() {
                    assert(g2.live[j] == g.live[j]);
                    assert(inside(x, g.live[j].addr as int, g.live[j].rank));
                    assert(g.covers_live(x));
                } else {
                    assert(g2.live[j] == block);
                    assert(inside(x, p as int, top as nat));
                    assert(g.covers_free(x));
                }
            }
        }
    }
    if g.canonical() {
        assert(p as nat % pow2(top as nat) == 0);
        assert forall|r: int| level <= r < top implies buddy_of(
            (#[trigger] upper_half(p as int, r)) as usize,
            r as nat,
        ) == p && buddy_of(p, r as nat) == p + pow2(r as nat) by {
            assert(upper_half(p as int, r) <= usize::MAX);
            crate::bits::lemma_pow2_mod(top as nat, (r + 1) as nat);
            lemma_pow2_pos((r + 1) as nat);
            lemma_pow2_pos(top as nat);
            crate::bits::lemma_mod_trans(
                p as int,
                pow2(top as nat) as int,
                pow2((r + 1) as nat) as int,
            );
            crate::bits::lemma_pow2_monotone((r + 1) as nat, top as nat);
            lemma_halves(p, (r + 1) as nat);
            lemma_involution(p, r as nat);
        }
        assert forall|r: int| 0 <= r < 32 && r != top implies !g.is_free(p, r) by {
            if g.is_free(p, r) {
                lemma_pow2_pos(r as nat);
                assert(apart(p as int, r as nat, p as int, top as nat));
            }
        }
        assert forall|a: usize, r: int| #[trigger] g2.is_free(a, r) implies !g2.paired(a, r) by {
            if g2.paired(a, r) {
                let c = buddy_of(a, r as nat) as usize;
                assert(g2.is_free(c, r));
                lemma_involution(a, r as nat);
                lemma_pow2_pos(r as nat);
                if g.is_free(a, r) && !(a == p && r == top) {
                    if g.is_free(c, r) {
                        assert(g.paired(a, r));
                    } else {
                        // the buddy is an upper half that stayed behind
                        assert(level <= r < top && c == p + pow2(r as nat));
                        assert(c == upper_half(p as int, r));
                        assert(a == p);
                    }
                } else {
                    assert(level <= r < top && a == p + pow2(r as nat));
                    assert(a == upper_half(p as int, r));
                    assert(c == p);
                    if g.is_free(c, r) {
                    } else {
                        assert(c == p + pow2(r as nat));
                    }
                }
            }
        }
    }
}

/// The free lists of one region that joins an empty heap hold no two
/// buddies.
pub proof fn lemma_region_no_pairs(g: BuddyModel, s: int, len: nat)
    requires
        g.free == crate::buddy_model::region_state(
            Seq::new(32, |r: int| Seq::<usize>::empty()),
            s,
            len,
            32,
        ),
    ensures
        g.no_pairs(),
{
    assert forall|a: usize, r: int| #[trigger] g.is_free(a, r) implies !g.paired(a, r) by {
        if g.paired(a, r) {
            let c = buddy_of(a, r as nat) as usize;
            lemma_pow2_pos(r as nat);
            assert(c != a);
            let list = g.free[r];
            let i = choose|i: int| 0 <= i < list.len() && list[i] == a;
            let j = choose|j: int| 0 <= j < list.len() && list[j] == c;
            assert(list.len() <= 1);
        }
    }
}

/// Full coalescence: of two heaps in which no two free blocks are buddies,
/// in which no block is handed out, and which hold the same bytes, each has
/// the free blocks of the other.
pub proof fn lemma_full_coalescence(g: BuddyModel, h: BuddyModel, m: ArenaModel)
    requires
        m.wf(),
        g.inv(m),
        h.inv(m),
        g.canonical(),
        h.canonical(),
        g.live.len() == 0,
        h.live.len() == 0,
        forall|x: int| g.holds(x) == h.holds(x),
    ensures
        forall|a: usize, r: int| g.is_free(a, r) == h.is_free(a, r),
{
    assert forall|x: int| g.covers_free(x) == h.covers_free(x) by {
        assert(g.holds(x) == h.holds(x));
        assert(!g.covers_live(x));
        assert(!h.covers_live(x));
    }
    assert forall|a: usize, r: int| g.is_free(a, r) == h.is_free(a, r) by {
        if g.is_free(a, r) {
            lemma_same_blocks(g, h, m, a, r);
        }
        if h.is_free(a, r) {
            lemma_same_blocks(h, g, m, a, r);
        }
    }
}

} // verus!

verus! {

/// The remainder by the next power of two is the remainder by this one, and
/// this power of two more where its bit is set.
pub proof fn lemma_mod_bit(len: nat, k: nat)
    ensures
        len % pow2(k + 1) == len % pow2(k) + (if crate::buddy_model::has_bit(len, k) {
            pow2(k)
        } else {
            0
        }),
{
    let d = pow2(k) as int;
    lemma_pow2_pos(k);
    vstd::arithmetic::power2::lemma_pow2_unfold(k + 1);
    let q = len as int / d;
    let r0 = len as int % d;
    vstd::arithmetic::div_mod::lemma_fundamental_div_mod(len as int, d);
    vstd::arithmetic::div_mod::lemma_mod_bound(len as int, d);
    let t = q / 2;
    let b = q % 2;
    assert(len == t * (2 * d) + (b * d + r0)) by (nonlinear_arith)
        requires
            len == d * q + r0,
            q == 2 * t + b,
    ;
    assert(0 <= b * d + r0 < 2 * d) by (nonlinear_arith)
        requires
            0 <= b <= 1,
            0 <= r0 < d,
    ;
    vstd::arithmetic::div_mod::lemma_fundamental_div_mod_converse(
        len as int,
        2 * d,
        t,
        b * d + r0,
    );
    if b == 1 {
        assert(b * d == d) by (nonlinear_arith)
            requires
                b == 1,
        ;
    } else {
        assert(b * d == 0) by (nonlinear_arith)
            requires
                b == 0,
        ;
    }
}

/// The byte at `x` lies in one of the blocks that the bits below `k` of the
/// length of a region stand for.
pub open spec fn in_region_block(s: int, len: nat, k: nat, x: int) -> bool {
    exists|r: nat|
        r < k && #[trigger] crate::buddy_model::has_bit(len, r) && inside(x, s + len % pow2(r), r)
}

/// The blocks that the bits below `k` of the length of a region stand for
/// are the first `len % 2^k` bytes of the region.
pub proof fn lemma_region_cover(s: int, len: nat, k: nat, x: int)
    ensures
        in_region_block(s, len, k, x) == (s <= x < s + len % pow2(k)),
    decreases k,
{
    if k == 0 {
        vstd::arithmetic::power2::lemma2_to64();
    } else {
        let j = (k - 1) as nat;
        lemma_region_cover(s, len, j, x);
        lemma_mod_bit(len, j);
        lemma_pow2_pos(j);
        if in_region_block(s, len, j, x) {
            let r = choose|r: nat|
                r < j && #[trigger] crate::buddy_model::has_bit(len, r) && inside(
                    x,
                    s + len % pow2(r),
                    r,
                );
            assert(r < k && crate::buddy_model::has_bit(len, r) && inside(x, s + len % pow2(r), r));
        }
        if crate::buddy_model::has_bit(len, j) && inside(x, s + len % pow2(j), j) {
            assert(j < k);
            assert(in_region_block(s, len, k, x));
        }
        if in_region_block(s, len, k, x) {
            let r = choose|r: nat|
                r < k && #[trigger] crate::buddy_model::has_bit(len, r) && inside(
                    x,
                    s + len % pow2(r),
                    r,
                );
            if r < j {
                assert(in_region_block(s, len, j, x));
            }
        }
    }
}

/// A region that joins the heap adds its bytes to those of the heap.
pub proof fn lemma_region_law(g: BuddyModel, s: int, len: nat, x: int)
    requires
        g.free.len() == 32,
        0 <= s,
        s + len <= usize::MAX,
        len <= 0x8000_0000,
    ensures
        (BuddyModel {
            free: crate::buddy_model::region_state(g.free, s, len, 32),
            live: g.live,
            unit_rank: g.unit_rank,
        }).holds(x) == (g.holds(x) || s <= x < s + len),
{
    let g2 = BuddyModel {
        free: crate::buddy_model::region_state(g.free, s, len, 32),
        live: g.live,
        unit_rank: g.unit_rank,
    };
    vstd::arithmetic::power2::lemma2_to64();
    vstd::arithmetic::div_mod::lemma_small_mod(len, pow2(32));
    lemma_region_cover(s, len, 32, x);
    assert forall|r: nat| r < 32 && crate::buddy_model::has_bit(len, r) implies 0 <= s + len
        % #[trigger] pow2(r) <= usize::MAX by {
        lemma_pow2_pos(r);
        vstd::arithmetic::div_mod::lemma_mod_decreases(len, pow2(r));
    }
    assert forall|a: usize, r: int| #[trigger] g2.is_free(a, r) implies g.is_free(a, r) || (
    crate::buddy_model::has_bit(len, r as nat) && a == s + len % pow2(r as nat)) by {
        if crate::buddy_model::has_bit(len, r as nat) {
            let list = seq![(s + len % pow2(r as nat)) as usize] + g.free[r];
            let k = choose|k: int| 0 <= k < list.len() && list[k] == a;
            if k > 0 {
                assert(g.free[r][k - 1] == a);
            } else {
                assert(0 <= s + len % pow2(r as nat) <= usize::MAX);
            }
        }
    }
    assert forall|a: usize, r: int| g.is_free(a, r) implies #[trigger] g2.is_free(a, r) by {
        if crate::buddy_model::has_bit(len, r as nat) {
            let list = seq![(s + len % pow2(r as nat)) as usize] + g.free[r];
            let k = choose|k: int| 0 <= k < g.free[r].len() && g.free[r][k] == a;
            assert(list[k + 1] == a);
        }
    }
    if g2.covers_free(x) {
        let (a, r) = choose|a: usize, r: int|
            #[trigger] g2.is_free(a, r) && inside(x, a as int, r as nat);
        if g.is_free(a, r) {
            assert(g.covers_free(x));
        } else {
            let rr = r as nat;
            assert(rr < 32 && crate::buddy_model::has_bit(len, rr) && inside(
                x,
                s + len % pow2(rr),
                rr,
            ));
            assert(in_region_block(s, len, 32, x));
        }
    }
    if g.covers_free(x) {
        let (a, r) = choose|a: usize, r: int|
            #[trigger] g.is_free(a, r) && inside(x, a as int, r as nat);
        assert(g2.is_free(a, r));
        assert(g2.covers_free(x));
    }
    if s <= x < s + len {
        assert(in_region_block(s, len, 32, x));
        let r = choose|r: nat|
            r < 32 && #[trigger] crate::buddy_model::has_bit(len, r) && inside(
                x,
                s + len % pow2(r),
                r,
            );
        let a = (s + len % pow2(r)) as usize;
        assert(0 <= s + len % pow2(r) <= usize::MAX);
        let list = seq![a] + g.free[r as int];
        assert(g2.free[r as int] == list);
        assert(list[0] == a);
        assert(list.contains(a));
        assert(g2.is_free(a, r as int));
        assert(inside(x, a as int, r));
        assert(g2.covers_free(x));
    }
    assert(g2.live == g.live);
    if g.covers_live(x) {
        let j = choose|j: int|
            0 <= j < g.live.len() && inside(x, (#[trigger] g.live[j]).addr as int, g.live[j].rank);
        assert(inside(x, g2.live[j].addr as int, g2.live[j].rank));
    }
    if g2.covers_live(x) {
        let j = choose|j: int|
            0 <= j < g2.live.len() && inside(
                x,
                (#[trigger] g2.live[j]).addr as int,
                g2.live[j].rank,
            );
        assert(inside(x, g.live[j].addr as int, g.live[j].rank));
    }
}

} // verus!
