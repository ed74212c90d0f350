//! Integer roots of ratios, rounded down, and the search that finds them.
use crate::bignat::BigNat;
use crate::power::{
    lemma_pow_at_least_base, lemma_pow_monotone, lemma_pow_one, lemma_pow_strictly_monotone,
    lemma_pow_unfold,
};
use vstd::arithmetic::power::pow;
use vstd::prelude::*;

verus! {

/// `r` is the `k`-th root of `num / den`, rounded down: the one natural number
/// with `r^k <= num / den < (r + 1)^k`.
pub open spec fn is_floor_root(r: int, k: nat, num: int, den: int) -> bool {
    &&& 0 <= r
    &&& pow(r, k) * den <= num
    &&& num < pow(r + 1, k) * den
}

/// The `k`-th root of `num / den`, rounded down.
pub open spec fn floor_root(k: nat, num: int, den: int) -> int
    recommends
        k >= 1,
        num >= 0,
        den > 0,
{
    choose|r: int| is_floor_root(r, k, num, den)
}

/// With a positive scale, `r^k * den` keeps the strict order of `r`.
pub proof fn lemma_scaled_pow_strictly_monotone(a: int, b: int, k: nat, den: int)
    requires
        0 <= a < b,
        k >= 1,
        den > 0,
    ensures
        pow(a, k) * den < pow(b, k) * den,
{
    lemma_pow_strictly_monotone(a, b, k);
    assert(pow(a, k) * den < pow(b, k) * den) by (nonlinear_arith)
        requires
            pow(a, k) < pow(b, k),
            den > 0,
    ;
}

/// At most one number is the rounded-down root.
pub proof fn lemma_floor_root_unique(r1: int, r2: int, k: nat, num: int, den: int)
    requires
        k >= 1,
        den > 0,
        is_floor_root(r1, k, num, den),
        is_floor_root(r2, k, num, den),
    ensures
        r1 == r2,
{
    if r1 < r2 {
        if r1 + 1 < r2 {
            lemma_scaled_pow_strictly_monotone(r1 + 1, r2, k, den);
        }
    } else if r2 < r1 {
        if r2 + 1 < r1 {
            lemma_scaled_pow_strictly_monotone(r2 + 1, r1, k, den);
        }
    }
}

/// A number that brackets `num / den` between its power and its successor's
/// is the rounded-down root.
pub proof fn lemma_floor_root_is(r: int, k: nat, num: int, den: int)
    requires
        k >= 1,
        den > 0,
        is_floor_root(r, k, num, den),
    ensures
        floor_root(k, num, den) == r,
{
    lemma_floor_root_unique(r, floor_root(k, num, den), k, num, den);
}

/// Searching downwards from a number whose successor is above the root finds
/// the root.
proof fn lemma_floor_root_below(c: int, k: nat, num: int, den: int) -> (r: int)
    requires
        k >= 1,
        den > 0,
        num >= 0,
        c >= 0,
        num < pow(c + 1, k) * den,
    ensures
        is_floor_root(r, k, num, den),
    decreases c,
{
    if pow(c, k) * den <= num {
        c
    } else {
        if c == 0 {
            vstd::arithmetic::power::lemma0_pow(k);
            assert(pow(0, k) * den <= 0) by (nonlinear_arith)
                requires
                    pow(0, k) == 0,
            ;
            0
        } else {
            lemma_floor_root_below(c - 1, k, num, den)
        }
    }
}

/// Every ratio of a natural number to a positive one has a rounded-down root.
pub proof fn lemma_floor_root_exists(k: nat, num: int, den: int)
    requires
        k >= 1,
        den > 0,
        num >= 0,
    ensures
        is_floor_root(floor_root(k, num, den), k, num, den),
{
    // (num + 1)^k >= num + 1 > num
    lemma_pow_strictly_monotone(0, 1, k);
    lemma_pow_monotone(1, num + 1, k);
    lemma_pow_unfold(1, 0);
    lemma_pow_one(k);
    lemma_pow_at_least_base(num + 1, k);
    assert(num < pow(num + 1, k) * den) by (nonlinear_arith)
        requires
            pow(num + 1, k) >= num + 1,
            den >= 1,
            num >= 0,
    ;
    let r = lemma_floor_root_below(num, k, num, den);
    assert(is_floor_root(r, k, num, den));
}

/// A number whose power is above `num / den` is above the rounded-down root.
pub proof fn lemma_floor_root_below_bound(k: nat, num: int, den: int, bound: int)
    requires
        k >= 1,
        den > 0,
        num >= 0,
        bound >= 0,
        num < pow(bound, k) * den,
    ensures
        0 <= floor_root(k, num, den) < bound,
{
    lemma_floor_root_exists(k, num, den);
    let f = floor_root(k, num, den);
    if f > bound {
        lemma_scaled_pow_strictly_monotone(bound, f, k, den);
    }
}

/// A natural number whose power is at most `num / den` is at most the
/// rounded-down root.
pub proof fn lemma_floor_root_at_least(r: int, k: nat, num: int, den: int)
    requires
        k >= 1,
        den > 0,
        0 <= r,
        pow(r, k) * den <= num,
    ensures
        r <= floor_root(k, num, den),
{
    lemma_pow_monotone(0, r, k);
    assert(0 <= pow(r, k) * den) by (nonlinear_arith)
        requires
            0 <= pow(r, k),
            den > 0,
    ;
    lemma_floor_root_exists(k, num, den);
    let f = floor_root(k, num, den);
    if f + 1 < r {
        lemma_scaled_pow_strictly_monotone(f + 1, r, k, den);
    }
}

/// The rounded-down root grows with the number under it.
pub proof fn lemma_floor_root_monotone(k: nat, num1: int, num2: int, den: int)
    requires
        k >= 1,
        den > 0,
        0 <= num1 <= num2,
    ensures
        0 <= floor_root(k, num1, den) <= floor_root(k, num2, den),
{
    lemma_floor_root_exists(k, num1, den);
    lemma_floor_root_exists(k, num2, den);
    let f1 = floor_root(k, num1, den);
    let f2 = floor_root(k, num2, den);
    if f1 > f2 {
        if f1 > f2 + 1 {
            lemma_scaled_pow_strictly_monotone(f2 + 1, f1, k, den);
        }
    }
}

/// The first root of a ratio is the ratio rounded down.
pub proof fn lemma_floor_root_one(num: int, den: int)
    requires
        num >= 0,
        den > 0,
    ensures
        floor_root(1, num, den) == num / den,
{
    let q = num / den;
    lemma_pow_unfold(q, 0);
    lemma_pow_unfold(q + 1, 0);
    assert(q * 1 == q && (q + 1) * 1 == q + 1);
    assert(0 <= q && q * den <= num < (q + 1) * den) by (nonlinear_arith)
        requires
            q == num / den,
            num >= 0,
            den > 0,
    ;
    lemma_floor_root_is(q, 1, num, den);
}

/// The rounded-down root, or `limit` where the root is larger.
pub open spec fn bounded_floor_root(k: nat, num: int, den: int, limit: int) -> int {
    if floor_root(k, num, den) < limit {
        floor_root(k, num, den)
    } else {
        limit
    }
}

/// Finds by bisection the `k`-th root of `num / den`, rounded down and capped at
/// `limit`.
pub fn bounded_root(num: &BigNat, den: &BigNat, k: u32, limit: u64) -> (r: u64)
    requires
        k >= 1,
        den@ > 0,
        limit < u64::MAX,
    ensures
        r == bounded_floor_root(k as nat, num@ as int, den@ as int, limit as int),
{
    let mut lo: u64 = 0;
    let mut hi: u64 = limit + 1;
    proof {
        vstd::arithmetic::power::lemma0_pow(k as nat);
        assert(pow(0, k as nat) * den@ <= num@) by (nonlinear_arith)
            requires
                pow(0, k as nat) == 0,
                num@ >= 0,
        ;
    }
    while hi - lo > 1
        invariant
            k >= 1,
            den@ > 0,
            lo < hi <= limit + 1,
            limit < u64::MAX,
            pow(lo as int, k as nat) * den@ <= num@,
            hi <= limit ==> num@ < pow(hi as int, k as nat) * den@,
        decreases hi - lo,
    {
        let mid: u64 = lo + (hi - lo) / 2;
        let scaled: BigNat = den.mul_pow(mid, k);
        assert(den@ * pow(mid as int, k as nat) == pow(mid as int, k as nat) * den@)
            by (nonlinear_arith);
        if scaled.le(num) {
            lo = mid;
        } else {
            hi = mid;
        }
    }
    proof {
        let kk = k as nat;
        let n = num@ as int;
        let d = den@ as int;
        lemma_floor_root_exists(kk, n, d);
        let f = floor_root(kk, n, d);
        if lo < limit {
            assert(is_floor_root(lo as int, kk, n, d));
            lemma_floor_root_is(lo as int, kk, n, d);
        } else {
            // the root is at least `limit`
            if f < limit {
                lemma_scaled_pow_strictly_monotone(f + 1, limit as int + 1, kk, d);
                if f + 1 < limit {
                    lemma_scaled_pow_strictly_monotone(f + 1, limit as int, kk, d);
                }
            }
        }
    }
    lo
}

} // verus!
