//! Powers of two: the arithmetic that size classes and buddy addresses rest
//! on.

use vstd::prelude::*;
use vstd::arithmetic::power2::{lemma2_to64, lemma_pow2_pos, lemma_pow2_strictly_increases, lemma_pow2_unfold, pow2};
use vstd::arithmetic::div_mod::{lemma_div_multiples_vanish, lemma_fundamental_div_mod, lemma_mod_multiples_basic};
use vstd::bits::{lemma_usize_shl_is_mul, lemma_usize_shr_is_div};

verus! {

/// The least `k` with `n <= 2^k`.
pub open spec fn ceil_log2(n: nat) -> nat
    decreases n,
{
    if n <= 1 {
        0
    } else {
        ceil_log2((n + 1) / 2) + 1
    }
}

/// The number of times that two divides `n`, and zero for `n == 0`.
pub open spec fn low_zeros(n: nat) -> nat
    decreases n,
{
    if n == 0 || n % 2 == 1 {
        0
    } else {
        low_zeros(n / 2) + 1
    }
}

/// The block that shares its parent with the block of rank `rank` at `addr`:
/// the address with bit `rank` flipped.
pub open spec fn buddy_of(addr: usize, rank: nat) -> int {
    if (addr as nat / pow2(rank)) % 2 == 0 {
        addr + pow2(rank)
    } else {
        addr - pow2(rank)
    }
}

/// Powers of two grow with the exponent.
pub proof fn lemma_pow2_monotone(a: nat, b: nat)
    requires
        a <= b,
    ensures
        0 < pow2(a) <= pow2(b),
{
    lemma_pow2_pos(a);
    if a < b {
        lemma_pow2_strictly_increases(a, b);
    }
}

/// Every size class below the 32nd fits in 31 bits.
pub proof fn lemma_pow2_rank(r: nat)
    requires
        r < 32,
    ensures
        0 < pow2(r) <= 0x8000_0000,
        r >= 3 ==> pow2(r) % 8 == 0,
        r > 0 ==> pow2(r) == 2 * pow2((r - 1) as nat),
{
    lemma2_to64();
    lemma_pow2_monotone(r, 31);
    if r > 0 {
        lemma_pow2_unfold(r);
    }
    if r >= 3 {
        lemma_pow2_mod(r, 3);
    }
}

/// A power of two is a multiple of every smaller power of two.
pub proof fn lemma_pow2_mod(a: nat, b: nat)
    requires
        b <= a,
    ensures
        pow2(a) % pow2(b) == 0,
        pow2(a) == pow2(b) * pow2((a - b) as nat),
    decreases a - b,
{
    lemma_pow2_pos(b);
    if a == b {
        lemma2_to64();
        assert(pow2(b) * 1 == pow2(b));
    } else {
        lemma_pow2_mod((a - 1) as nat, b);
        lemma_pow2_unfold(a);
        lemma_pow2_unfold((a - b) as nat);
        let p = pow2(b) as int;
        let q = pow2((a - 1 - b) as nat) as int;
        assert(pow2(a) == p * (2 * q)) by (nonlinear_arith)
            requires
                pow2(a) == 2 * pow2((a - 1) as nat),
                pow2((a - 1) as nat) == p * q,
        ;
        assert((p * (2 * q)) % p == 0) by (nonlinear_arith)
            requires
                p > 0,
        ;
    }
}

/// Sums and differences of multiples of `d` are multiples of `d`.
pub proof fn lemma_mod_sum(a: int, b: int, d: int)
    requires
        d > 0,
        a % d == 0,
        b % d == 0,
    ensures
        (a + b) % d == 0,
        (a - b) % d == 0,
{
    lemma_fundamental_div_mod(a, d);
    lemma_fundamental_div_mod(b, d);
    let x = a / d;
    let y = b / d;
    assert(a + b == (x + y) * d) by (nonlinear_arith)
        requires
            a == d * x,
            b == d * y,
    ;
    assert(a - b == (x - y) * d) by (nonlinear_arith)
        requires
            a == d * x,
            b == d * y,
    ;
    lemma_mod_multiples_basic(x + y, d);
    lemma_mod_multiples_basic(x - y, d);
}

/// A multiple of a multiple of `c` is a multiple of `c`.
pub proof fn lemma_mod_trans(a: int, d: int, c: int)
    requires
        c > 0,
        d > 0,
        a % d == 0,
        d % c == 0,
    ensures
        a % c == 0,
{
    lemma_fundamental_div_mod(a, d);
    lemma_fundamental_div_mod(d, c);
    let x = a / d;
    let y = d / c;
    assert(a == (x * y) * c) by (nonlinear_arith)
        requires
            a == d * x,
            d == c * y,
    ;
    lemma_mod_multiples_basic(x * y, c);
}

/// `2^ceil_log2(n)` is the least power of two that is at least `n`.
pub proof fn lemma_ceil_log2(n: nat)
    ensures
        pow2(ceil_log2(n)) >= n,
        ceil_log2(n) > 0 ==> pow2((ceil_log2(n) - 1) as nat) < n,
    decreases n,
{
    lemma2_to64();
    if n > 1 {
        let h = (n + 1) / 2;
        lemma_ceil_log2(h);
        lemma_pow2_unfold(ceil_log2(n));
        if ceil_log2(h) > 0 {
            lemma_pow2_unfold(ceil_log2(h));
        }
    }
}

/// The size of a class: `2^ceil_log2(n)` is a power of two that is no less
/// than `n`, and no power of two that is no less than `n` is smaller.
pub proof fn lemma_class_size(n: nat, k: nat)
    requires
        pow2(k) >= n,
    ensures
        n <= pow2(ceil_log2(n)) <= pow2(k),
{
    lemma_ceil_log2(n);
    if k < ceil_log2(n) {
        lemma_pow2_monotone(k, (ceil_log2(n) - 1) as nat);
    }
    lemma_pow2_monotone(ceil_log2(n), if k < ceil_log2(n) { ceil_log2(n) } else { k });
}

/// The exponent of the least power of two that is at least `n` is
/// `ceil_log2(n)`.
pub proof fn lemma_ceil_log2_unique(n: nat, k: nat)
    requires
        pow2(k) >= n,
        k > 0 ==> pow2((k - 1) as nat) < n,
    ensures
        k == ceil_log2(n),
{
    let c = ceil_log2(n);
    lemma_ceil_log2(n);
    if k < c {
        lemma_pow2_monotone(k, (c - 1) as nat);
    }
    if c < k {
        lemma_pow2_monotone(c, (k - 1) as nat);
    }
}

/// `ceil_log2` grows with its argument, and undoes `pow2`.
pub proof fn lemma_ceil_log2_monotone(a: nat, b: nat)
    requires
        a <= b,
    ensures
        ceil_log2(a) <= ceil_log2(b),
{
    lemma_ceil_log2(a);
    lemma_ceil_log2(b);
    if ceil_log2(b) < ceil_log2(a) {
        lemma_pow2_monotone(ceil_log2(b), (ceil_log2(a) - 1) as nat);
    }
}

/// The exponent of a power of two is its `ceil_log2`.
pub proof fn lemma_ceil_log2_pow2(k: nat)
    ensures
        ceil_log2(pow2(k)) == k,
{
    if k > 0 {
        lemma_pow2_strictly_increases((k - 1) as nat, k);
    }
    lemma_ceil_log2_unique(pow2(k), k);
}

/// `2^low_zeros(n)` divides a positive `n`, and the quotient is odd.
pub proof fn lemma_low_zeros(n: nat)
    requires
        n > 0,
    ensures
        n % pow2(low_zeros(n)) == 0,
        (n / pow2(low_zeros(n))) % 2 == 1,
        pow2(low_zeros(n)) <= n,
    decreases n,
{
    lemma2_to64();
    if n % 2 == 0 {
        let h = n / 2;
        lemma_low_zeros(h);
        let k = low_zeros(h);
        lemma_pow2_unfold(k + 1);
        lemma_pow2_pos(k);
        let p = pow2(k) as int;
        let q = h as int / p;
        lemma_fundamental_div_mod(h as int, p);
        assert(n == q * (2 * p)) by (nonlinear_arith)
            requires
                n == 2 * h,
                h == p * q,
        ;
        lemma_mod_multiples_basic(q, 2 * p);
        lemma_div_multiples_vanish(q, 2 * p);
        assert((2 * p) * q == q * (2 * p)) by (nonlinear_arith);
    }
}

/// Two divides a power of two as many times as its exponent says.
pub proof fn lemma_low_zeros_pow2(k: nat)
    ensures
        low_zeros(pow2(k)) == k,
    decreases k,
{
    lemma2_to64();
    lemma_pow2_pos(k);
    if k > 0 {
        lemma_pow2_unfold(k);
        lemma_low_zeros_pow2((k - 1) as nat);
    }
}

/// The smallest power of two greater than or equal to `n`.
pub fn next_power_of_two(n: usize) -> (r: usize)
    requires
        n <= 0x8000_0000,
    ensures
        r == pow2(ceil_log2(n as nat)),
        ceil_log2(n as nat) < 32,
{
    let mut r: usize = 1;
    let ghost mut k: nat = 0;
    proof {
        lemma2_to64();
    }
    while r < n
        invariant
            n <= 0x8000_0000,
            r == pow2(k),
            r >= 1,
            k < 32,
            k > 0 ==> pow2((k - 1) as nat) < n,
        decreases 32 - k,
    {
        proof {
            lemma_pow2_unfold(k + 1);
            lemma_pow2_rank(k);
            if k == 31 {
                lemma2_to64();
            }
        }
        r = r * 2;
        proof {
            k = k + 1;
        }
    }
    proof {
        lemma_ceil_log2_unique(n as nat, k);
    }
    r
}

/// The number of trailing zero bits of a positive `x`.
pub fn trailing_zeros(x: usize) -> (r: usize)
    requires
        x > 0,
    ensures
        r == low_zeros(x as nat),
        pow2(r as nat) <= x,
{
    let mut r: usize = 0;
    let mut y: usize = x;
    proof {
        lemma2_to64();
    }
    while y % 2 == 0
        invariant
            y > 0,
            low_zeros(x as nat) == low_zeros(y as nat) + r,
            pow2(r as nat) * y <= x,
            r < 64,
        decreases y,
    {
        proof {
            lemma2_to64();
            lemma_pow2_unfold((r + 1) as nat);
            lemma_pow2_pos(r as nat);
            let p = pow2(r as nat) as int;
            assert(2 * p * (y / 2) == p * y) by (nonlinear_arith)
                requires
                    y % 2 == 0,
            ;
            assert(2 * p <= x) by (nonlinear_arith)
                requires
                    p * y <= x,
                    y >= 2,
                    p >= 1,
            ;
            if r + 1 >= 64 {
                lemma_pow2_monotone(64, (r + 1) as nat);
            }
        }
        y = y / 2;
        r = r + 1;
    }
    proof {
        let p = pow2(r as nat) as int;
        lemma_pow2_pos(r as nat);
        assert(p <= x) by (nonlinear_arith)
            requires
                p * y <= x,
                y >= 1,
                p >= 1,
        ;
    }
    r
}

/// Number of bytes in a block of the size class `rank`.
pub fn block_size(rank: usize) -> (s: usize)
    requires
        rank < 32,
    ensures
        s == pow2(rank as nat),
        s == 1usize << rank,
        0 < s <= 0x8000_0000,
{
    proof {
        lemma_pow2_rank(rank as nat);
        lemma_usize_shl_is_mul(1, rank);
    }
    1usize << rank
}

/// Address of the buddy of the block of class `rank` at `addr`.
pub fn buddy_addr(addr: usize, rank: usize) -> (b: usize)
    requires
        rank < 32,
    ensures
        b == buddy_of(addr, rank as nat),
{
    let s = block_size(rank);
    proof {
        lemma_usize_shr_is_div(addr, rank);
        let q = addr >> rank;
        assert(q & 1 == q % 2) by (bit_vector);
        assert(rank < 32 ==> ((addr >> rank) & 1 == 0 ==> addr ^ (1usize << rank) == addr + (1usize
            << rank)) && ((addr >> rank) & 1 == 1 ==> addr ^ (1usize << rank) == addr - (1usize
            << rank))) by (bit_vector);
    }
    addr ^ s
}

} // verus!
