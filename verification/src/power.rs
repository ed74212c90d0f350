//! Facts about powers of integers that the roots and the curves of this crate
//! rest on.
use vstd::arithmetic::power::pow;
use vstd::prelude::*;

verus! {

/// A power is the base times the power one lower, and the power zero is one.
pub proof fn lemma_pow_unfold(b: int, k: nat)
    ensures
        pow(b, k + 1) == b * pow(b, k),
        pow(b, 0) == 1,
{
    reveal(pow);
}

/// Every power of one is one.
pub proof fn lemma_pow_one(k: nat)
    ensures
        pow(1, k) == 1,
    decreases k,
{
    if k == 0 {
        lemma_pow_unfold(1, 0);
    } else {
        lemma_pow_one((k - 1) as nat);
        lemma_pow_unfold(1, (k - 1) as nat);
    }
}

/// The third power written out.
pub proof fn lemma_pow3(b: int)
    ensures
        pow(b, 3) == b * b * b,
{
    lemma_pow_unfold(b, 0);
    lemma_pow_unfold(b, 1);
    lemma_pow_unfold(b, 2);
    assert(b * (b * (b * 1)) == b * b * b) by (nonlinear_arith);
}

/// The fifth power written out.
pub proof fn lemma_pow5(b: int)
    ensures
        pow(b, 5) == b * b * b * b * b,
{
    lemma_pow3(b);
    lemma_pow_unfold(b, 3);
    lemma_pow_unfold(b, 4);
    let c = b * b * b;
    assert(b * (b * c) == c * b * b) by (nonlinear_arith);
}

/// The seventh power written out.
pub proof fn lemma_pow7(b: int)
    ensures
        pow(b, 7) == b * b * b * b * b * b * b,
{
    lemma_pow5(b);
    lemma_pow_unfold(b, 5);
    lemma_pow_unfold(b, 6);
    let c = b * b * b * b * b;
    assert(b * (b * c) == c * b * b) by (nonlinear_arith);
}

/// The twelfth power written out.
pub proof fn lemma_pow12(b: int)
    ensures
        pow(b, 12) == b * b * b * b * b * b * b * b * b * b * b * b,
{
    lemma_pow7(b);
    lemma_pow5(b);
    vstd::arithmetic::power::lemma_pow_adds(b, 7, 5);
    let c = b * b * b * b * b * b * b;
    let d = b * b * b * b * b;
    assert(c * d == c * b * b * b * b * b) by (nonlinear_arith)
        requires
            d == b * b * b * b * b,
    ;
}

/// Raising to a power keeps the order of natural numbers.
pub proof fn lemma_pow_monotone(a: int, b: int, k: nat)
    requires
        0 <= a <= b,
    ensures
        0 <= pow(a, k) <= pow(b, k),
    decreases k,
{
    if k == 0 {
        lemma_pow_unfold(a, 0);
        lemma_pow_unfold(b, 0);
    } else {
        let j = (k - 1) as nat;
        lemma_pow_monotone(a, b, j);
        lemma_pow_unfold(a, j);
        lemma_pow_unfold(b, j);
        assert(0 <= a * pow(a, j) <= b * pow(b, j)) by (nonlinear_arith)
            requires
                0 <= a <= b,
                0 <= pow(a, j) <= pow(b, j),
        ;
    }
}

/// Raising to a positive power keeps the strict order of natural numbers.
pub proof fn lemma_pow_strictly_monotone(a: int, b: int, k: nat)
    requires
        0 <= a < b,
        k >= 1,
    ensures
        0 <= pow(a, k) < pow(b, k),
    decreases k,
{
    let j = (k - 1) as nat;
    lemma_pow_unfold(a, j);
    lemma_pow_unfold(b, j);
    if j == 0 {
        lemma_pow_unfold(a, 0);
        lemma_pow_unfold(b, 0);
    } else {
        lemma_pow_strictly_monotone(a, b, j);
        assert(0 <= a * pow(a, j) < b * pow(b, j)) by (nonlinear_arith)
            requires
                0 <= a < b,
                0 <= pow(a, j) < pow(b, j),
        ;
    }
}

/// Of two natural numbers, the one with the smaller power is the smaller.
pub proof fn lemma_pow_order_converse(a: int, b: int, k: nat)
    requires
        0 <= a,
        0 <= b,
        k >= 1,
    ensures
        pow(a, k) < pow(b, k) ==> a < b,
        pow(a, k) <= pow(b, k) ==> a <= b,
{
    if a >= b {
        lemma_pow_monotone(b, a, k);
    }
    if a > b {
        lemma_pow_strictly_monotone(b, a, k);
    }
}

/// Cubing keeps the order of integers.
pub proof fn lemma_cube_order(a: int, b: int)
    ensures
        a > b <==> a * a * a > b * b * b,
{
    assert(a > b ==> a * a * a > b * b * b) by (nonlinear_arith);
    assert(a <= b ==> a * a * a <= b * b * b) by (nonlinear_arith);
}

/// A positive power of a positive number is at least that number.
pub proof fn lemma_pow_at_least_base(b: int, k: nat)
    requires
        b >= 1,
        k >= 1,
    ensures
        pow(b, k) >= b,
{
    let j = (k - 1) as nat;
    lemma_pow_unfold(b, j);
    lemma_pow_one(j);
    lemma_pow_monotone(1, b, j);
    assert(b * pow(b, j) >= b) by (nonlinear_arith)
        requires
            b >= 1,
            pow(b, j) >= 1,
    ;
}

/// Bernoulli's inequality: `(a + h)^n >= a^(n-1) * (a + n h)`.
pub proof fn lemma_pow_sum_lower(a: int, h: int, n: nat)
    requires
        a >= 0,
        h >= 0,
        n >= 1,
    ensures
        pow(a + h, n) >= pow(a, (n - 1) as nat) * (a + n * h),
    decreases n,
{
    if n == 1 {
        lemma_pow_unfold(a + h, 0);
        lemma_pow_unfold(a, 0);
        assert(1 * (a + 1 * h) == a + h);
        assert((a + h) * 1 == a + h);
    } else {
        let j = (n - 1) as nat;
        let i = (n - 2) as nat;
        lemma_pow_sum_lower(a, h, j);
        lemma_pow_unfold(a + h, j);
        lemma_pow_unfold(a, i);
        lemma_pow_monotone(0, a, i);
        let p = pow(a, i);
        let big = pow(a + h, j);
        assert((a + h) * big >= (a * p) * (a + n * h)) by (nonlinear_arith)
            requires
                big >= p * (a + j * h),
                p >= 0,
                a >= 0,
                h >= 0,
                j >= 1,
                n == j + 1,
        ;
    }
}

/// The other side of Bernoulli's inequality, for a base that is large beside
/// the step: `(a + h)^n <= a^(n-1) * (a + n (h + 1) - 1)`.
pub proof fn lemma_pow_sum_upper(a: int, h: int, n: nat)
    requires
        h >= 0,
        n >= 1,
        a >= n * (h + 1) * h,
    ensures
        pow(a + h, n) <= pow(a, (n - 1) as nat) * (a + n * (h + 1) - 1),
    decreases n,
{
    assert(n * (h + 1) * h >= 0) by (nonlinear_arith)
        requires
            n >= 1,
            h >= 0,
    ;
    if n == 1 {
        lemma_pow_unfold(a + h, 0);
        lemma_pow_unfold(a, 0);
        assert(1 * (a + 1 * (h + 1) - 1) == a + h) by (nonlinear_arith);
        assert((a + h) * 1 == a + h);
    } else {
        let j = (n - 1) as nat;
        let i = (n - 2) as nat;
        assert(j * (h + 1) * h <= n * (h + 1) * h) by (nonlinear_arith)
            requires
                j <= n,
                h >= 0,
        ;
        lemma_pow_sum_upper(a, h, j);
        lemma_pow_unfold(a + h, j);
        lemma_pow_unfold(a, i);
        lemma_pow_monotone(0, a, i);
        lemma_pow_monotone(0, a + h, j);
        let p = pow(a, i);
        let big = pow(a + h, j);
        let c = j * (h + 1) - 1;
        assert(c * h <= a && c >= 0) by (nonlinear_arith)
            requires
                c == j * (h + 1) - 1,
                a >= (j + 1) * (h + 1) * h,
                h >= 0,
                j >= 1,
        ;
        assert(n * (h + 1) - 1 == c + h + 1) by (nonlinear_arith)
            requires
                c == j * (h + 1) - 1,
                n == j + 1,
        ;
        assert((a + h) * big <= (a * p) * (a + n * (h + 1) - 1)) by (nonlinear_arith)
            requires
                0 <= big <= p * (a + c),
                p >= 0,
                a >= 0,
                h >= 0,
                c >= 0,
                c * h <= a,
                n * (h + 1) - 1 == c + h + 1,
        ;
    }
}

} // verus!
