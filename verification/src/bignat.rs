//! Arbitrary-precision natural numbers, just large enough in scope to compare
//! products of machine words exactly. The root extraction of this crate is
//! built on it.
use vstd::prelude::*;

verus! {

/// The radix of one limb, 2^64.
spec fn limb_base() -> int {
    0x1_0000_0000_0000_0000
}

/// The weight of limb `i`, `limb_base()` to the power `i`.
spec fn weight(i: nat) -> int
    decreases i,
{
    if i == 0 {
        1
    } else {
        limb_base() * weight((i - 1) as nat)
    }
}

/// Limb `i` of a little-endian limb sequence, zero past its end.
spec fn digit(s: Seq<u64>, i: int) -> int {
    if 0 <= i < s.len() {
        s[i] as int
    } else {
        0
    }
}

/// The number that the lowest `n` limbs of `s` denote.
spec fn low_value(s: Seq<u64>, n: nat) -> int
    decreases n,
{
    if n == 0 {
        0
    } else {
        low_value(s, (n - 1) as nat) + digit(s, n - 1) * weight((n - 1) as nat)
    }
}

/// Every weight is at least one.
proof fn lemma_weight_positive(i: nat)
    ensures
        weight(i) >= 1,
    decreases i,
{
    if i > 0 {
        lemma_weight_positive((i - 1) as nat);
        assert(limb_base() * weight((i - 1) as nat) >= 1) by (nonlinear_arith)
            requires
                weight((i - 1) as nat) >= 1,
                limb_base() >= 1,
        ;
    }
}

/// The lowest `n` limbs denote a number below the weight of limb `n`.
proof fn lemma_low_value_bound(s: Seq<u64>, n: nat)
    ensures
        0 <= low_value(s, n) < weight(n),
    decreases n,
{
    if n > 0 {
        let m = (n - 1) as nat;
        lemma_low_value_bound(s, m);
        lemma_weight_positive(m);
        let d = digit(s, n - 1);
        let w = weight(m);
        assert(0 <= d * w && d * w + w <= limb_base() * w) by (nonlinear_arith)
            requires
                0 <= d < limb_base(),
                w >= 1,
        ;
    }
}

/// Limbs past the end of `s` add nothing.
proof fn lemma_low_value_past_end(s: Seq<u64>, n: nat)
    requires
        n >= s.len(),
    ensures
        low_value(s, n) == low_value(s, s.len()),
    decreases n,
{
    if n > s.len() {
        lemma_low_value_past_end(s, (n - 1) as nat);
        assert(digit(s, n - 1) * weight((n - 1) as nat) == 0) by (nonlinear_arith)
            requires
                digit(s, n - 1) == 0,
        ;
    }
}

/// Appending a limb leaves the limbs below it as they were.
proof fn lemma_low_value_push(s: Seq<u64>, x: u64, n: nat)
    requires
        n <= s.len(),
    ensures
        low_value(s.push(x), n) == low_value(s, n),
    decreases n,
{
    if n > 0 {
        lemma_low_value_push(s, x, (n - 1) as nat);
        assert(digit(s.push(x), n - 1) == digit(s, n - 1));
    }
}

/// A natural number of any size, held as little-endian 64-bit limbs.
pub struct BigNat {
    limbs: Vec<u64>,
}

impl View for BigNat {
    type V = nat;

    closed spec fn view(&self) -> nat {
        low_value(self.limbs@, self.limbs@.len()) as nat
    }
}

impl BigNat {
    /// The number `x`.
    pub fn from_u64(x: u64) -> (r: BigNat)
        ensures
            r@ == x,
    {
        let mut limbs: Vec<u64> = Vec::new();
        limbs.push(x);
        proof {
            reveal_with_fuel(low_value, 2);
            reveal_with_fuel(weight, 1);
            assert(digit(limbs@, 0) == x as int);
            assert((x as int) * 1 == x as int);
        }
        BigNat { limbs }
    }

    /// The number `x`.
    pub fn from_u128(x: u128) -> (r: BigNat)
        ensures
            r@ == x,
    {
        let lo: u64 = (x % 0x1_0000_0000_0000_0000u128) as u64;
        let hi: u64 = (x / 0x1_0000_0000_0000_0000u128) as u64;
        let mut limbs: Vec<u64> = Vec::new();
        limbs.push(lo);
        limbs.push(hi);
        proof {
            assert(digit(limbs@, 0) == lo as int);
            assert(digit(limbs@, 1) == hi as int);
            assert(weight(0) == 1);
            assert(weight(1) == limb_base()) by {
                assert(weight(1) == limb_base() * weight(0));
            }
            assert(low_value(limbs@, 0) == 0);
            assert(low_value(limbs@, 1) == lo as int) by {
                assert(low_value(limbs@, 1) == low_value(limbs@, 0) + digit(limbs@, 0) * weight(0));
            }
            assert(low_value(limbs@, 2) == lo + hi * limb_base()) by {
                assert(low_value(limbs@, 2) == low_value(limbs@, 1) + digit(limbs@, 1) * weight(1));
            }
        }
        BigNat { limbs }
    }

    /// The product of `self` and one machine word.
    pub fn mul_u64(&self, m: u64) -> (r: BigNat)
        ensures
            r@ == self@ * m,
    {
        let n: usize = self.limbs.len();
        let mut out: Vec<u64> = Vec::new();
        let mut carry: u64 = 0;
        let mut i: usize = 0;
        while i < n
            invariant
                i <= n,
                n == self.limbs@.len(),
                out@.len() == i,
                low_value(out@, i as nat) + carry * weight(i as nat) == low_value(
                    self.limbs@,
                    i as nat,
                ) * m,
            decreases n - i,
        {
            let a: u64 = self.limbs[i];
            assert((a as int) * (m as int) + (carry as int) < 0x1_0000_0000_0000_0000
                * 0x1_0000_0000_0000_0000) by (nonlinear_arith)
                requires
                    0 <= a < 0x1_0000_0000_0000_0000,
                    0 <= m < 0x1_0000_0000_0000_0000,
                    0 <= carry < 0x1_0000_0000_0000_0000,
            ;
            assert(0 <= (a as int) * (m as int)) by (nonlinear_arith)
                requires
                    0 <= a,
                    0 <= m,
            ;
            let t: u128 = (a as u128) * (m as u128) + (carry as u128);
            let d: u64 = (t % 0x1_0000_0000_0000_0000u128) as u64;
            let c: u64 = (t / 0x1_0000_0000_0000_0000u128) as u64;
            proof {
                let w = weight(i as nat);
                let lo = low_value(out@, i as nat);
                let la = low_value(self.limbs@, i as nat);
                lemma_low_value_push(out@, d, i as nat);
                assert(digit(out@.push(d), i as int) == d as int);
                assert(digit(self.limbs@, i as int) == a as int);
                assert(t == c * limb_base() + d);
                assert(weight((i + 1) as nat) == limb_base() * w);
                assert(lo + d * w + c * (limb_base() * w) == (la + a * w) * m)
                    by (nonlinear_arith)
                    requires
                        lo + carry * w == la * m,
                        a * m + carry == c * limb_base() + d,
                ;
            }
            out.push(d);
            carry = c;
            i += 1;
        }
        proof {
            lemma_low_value_push(out@, carry, n as nat);
            assert(digit(out@.push(carry), n as int) == carry as int);
            lemma_low_value_bound(self.limbs@, n as nat);
            assert(0 <= low_value(self.limbs@, n as nat) * m) by (nonlinear_arith)
                requires
                    0 <= low_value(self.limbs@, n as nat),
                    0 <= m,
            ;
        }
        out.push(carry);
        BigNat { limbs: out }
    }

    /// The product of `self` and `base` to the power `exp`.
    pub fn mul_pow(&self, base: u64, exp: u32) -> (r: BigNat)
        ensures
            r@ == self@ * vstd::arithmetic::power::pow(base as int, exp as nat),
    {
        let mut acc: BigNat = self.mul_u64(1);
        let mut i: u32 = 0;
        proof {
            vstd::arithmetic::power::lemma_pow0(base as int);
        }
        while i < exp
            invariant
                i <= exp,
                acc@ == self@ * vstd::arithmetic::power::pow(base as int, i as nat),
            decreases exp - i,
        {
            proof {
                let p = vstd::arithmetic::power::pow(base as int, i as nat);
                assert(vstd::arithmetic::power::pow(base as int, (i + 1) as nat) == base * p) by {
                    reveal(vstd::arithmetic::power::pow);
                }
                assert((self@ * p) * base == self@ * (base * p)) by (nonlinear_arith);
            }
            acc = acc.mul_u64(base);
            i += 1;
        }
        acc
    }

    /// Whether `self` is at most `other`.
    pub fn le(&self, other: &BigNat) -> (b: bool)
        ensures
            b == (self@ <= other@),
    {
        let la: usize = self.limbs.len();
        let lb: usize = other.limbs.len();
        let n: usize = if la > lb {
            la
        } else {
            lb
        };
        let mut i: usize = n;
        proof {
            lemma_low_value_past_end(self.limbs@, n as nat);
            lemma_low_value_past_end(other.limbs@, n as nat);
            lemma_low_value_bound(self.limbs@, la as nat);
            lemma_low_value_bound(other.limbs@, lb as nat);
        }
        while i > 0
            invariant
                i <= n,
                la == self.limbs@.len(),
                lb == other.limbs@.len(),
                self@ - other@ == low_value(self.limbs@, i as nat) - low_value(
                    other.limbs@,
                    i as nat,
                ),
            decreases i,
        {
            i -= 1;
            let da: u64 = if i < la {
                self.limbs[i]
            } else {
                0
            };
            let db: u64 = if i < lb {
                other.limbs[i]
            } else {
                0
            };
            proof {
                let w = weight(i as nat);
                lemma_weight_positive(i as nat);
                lemma_low_value_bound(self.limbs@, i as nat);
                lemma_low_value_bound(other.limbs@, i as nat);
                assert(digit(self.limbs@, i as int) == da as int);
                assert(digit(other.limbs@, i as int) == db as int);
                assert(low_value(self.limbs@, (i + 1) as nat) == low_value(self.limbs@, i as nat)
                    + da * w);
                assert(low_value(other.limbs@, (i + 1) as nat) == low_value(
                    other.limbs@,
                    i as nat,
                ) + db * w);
                assert(da < db ==> da * w + w <= db * w) by (nonlinear_arith)
                    requires
                        w >= 1,
                ;
                assert(da > db ==> db * w + w <= da * w) by (nonlinear_arith)
                    requires
                        w >= 1,
                ;
            }
            if da < db {
                return true;
            }
            if da > db {
                return false;
            }
        }
        proof {
            assert(low_value(self.limbs@, 0) == 0);
            assert(low_value(other.limbs@, 0) == 0);
        }
        true
    }
}

} // verus!
