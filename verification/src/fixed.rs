//! The real-valued channel of this crate: a signed fixed-point number with 32
//! fractional bits whose arithmetic rounds down and saturates.
use vstd::prelude::*;

verus! {

/// The raw value of 1.0: 2^32 units.
pub const ONE_RAW: i64 = 0x1_0000_0000;

/// The largest raw value, 2^47 - 1 units, a little under 32768.0. The smallest
/// is its negation.
pub const MAX_RAW: i64 = 0x7FFF_FFFF_FFFF;

/// `x` brought into the range of raw values.
pub open spec fn saturate(x: int) -> int {
    if x > MAX_RAW {
        MAX_RAW as int
    } else if x < -MAX_RAW {
        -MAX_RAW
    } else {
        x
    }
}

/// The quotient `a / b` rounded towards minus infinity.
pub open spec fn floor_div(a: int, b: int) -> int
    recommends
        b != 0,
{
    if b > 0 {
        a / b
    } else {
        (-a) / (-b)
    }
}

/// The raw value nearest to the ratio `num / den`, halves rounded up.
pub open spec fn nearest(num: int, den: int) -> int
    recommends
        den > 0,
{
    (2 * num * ONE_RAW + den) / (2 * den)
}

/// The distance between two raw values.
pub open spec fn distance(a: int, b: int) -> int {
    if a >= b {
        a - b
    } else {
        b - a
    }
}

/// A fixed-point number. Its view is its raw value: the number it denotes
/// times 2^32.
#[derive(Clone, Copy, PartialEq, Eq, Debug, Structural)]
pub struct Fixed {
    raw: i64,
}

impl View for Fixed {
    type V = int;

    closed spec fn view(&self) -> int {
        self.raw as int
    }
}

/// `a / b` rounded towards minus infinity, for a positive divisor.
pub fn div_floor(a: i128, b: i128) -> (q: i128)
    requires
        b > 0,
        a > i128::MIN + b,
    ensures
        q == a / b,
{
    if a >= 0 {
        a / b
    } else {
        let n: i128 = -a;
        let up: i128 = (n - 1) / b + 1;
        assert((a as int) / (b as int) == -up) by (nonlinear_arith)
            requires
                b > 0,
                a < 0,
                n == -a,
                up == (n - 1) / (b as int) + 1,
        ;
        -up
    }
}

impl Fixed {
    #[verifier::type_invariant]
    spec fn in_range(self) -> bool {
        -MAX_RAW <= self.raw <= MAX_RAW
    }

    /// The number with the raw value `raw`, saturated.
    pub closed spec fn of_raw(raw: int) -> Fixed {
        Fixed { raw: saturate(raw) as i64 }
    }

    /// `of_raw` has the raw value it was given, saturated.
    pub proof fn lemma_of_raw(raw: int)
        ensures
            Fixed::of_raw(raw)@ == saturate(raw),
    {
    }

    /// Two numbers with the same raw value are the same number.
    pub proof fn lemma_view_injective(a: Fixed, b: Fixed)
        requires
            a@ == b@,
        ensures
            a == b,
    {
    }

    /// The number with the raw value `raw`, saturated.
    pub fn from_raw(raw: i64) -> (x: Fixed)
        ensures
            x@ == saturate(raw as int),
            x == Fixed::of_raw(raw as int),
    {
        if raw > MAX_RAW {
            Fixed { raw: MAX_RAW }
        } else if raw < -MAX_RAW {
            Fixed { raw: -MAX_RAW }
        } else {
            Fixed { raw }
        }
    }

    /// The number with the raw value `wide`, saturated.
    pub fn from_wide(wide: i128) -> (x: Fixed)
        ensures
            x@ == saturate(wide as int),
    {
        if wide > MAX_RAW as i128 {
            Fixed { raw: MAX_RAW }
        } else if wide < -(MAX_RAW as i128) {
            Fixed { raw: -MAX_RAW }
        } else {
            Fixed { raw: wide as i64 }
        }
    }

    /// The raw value.
    pub fn raw(self) -> (r: i64)
        ensures
            r == self@,
            -MAX_RAW <= r <= MAX_RAW,
    {
        proof {
            use_type_invariant(&self);
        }
        self.raw
    }

    /// The number nearest to `num / den`, saturated.
    pub fn from_ratio(num: i64, den: u32) -> (x: Fixed)
        requires
            den > 0,
        ensures
            x@ == saturate(nearest(num as int, den as int)),
    {
        let top: i128 = 2 * (num as i128) * (ONE_RAW as i128) + (den as i128);
        let q: i128 = div_floor(top, 2 * (den as i128));
        Fixed::from_wide(q)
    }

    /// 0.0
    pub fn zero() -> (x: Fixed)
        ensures
            x@ == 0,
    {
        Fixed { raw: 0 }
    }

    /// 1.0
    pub fn one() -> (x: Fixed)
        ensures
            x@ == ONE_RAW,
    {
        Fixed { raw: ONE_RAW }
    }

    /// The sum, saturated.
    pub fn add(self, other: Fixed) -> (x: Fixed)
        ensures
            x@ == saturate(self@ + other@),
    {
        Fixed::from_wide(self.raw() as i128 + other.raw() as i128)
    }

    /// The product, rounded down and saturated.
    pub fn mul(self, other: Fixed) -> (x: Fixed)
        ensures
            x@ == saturate((self@ * other@) / (ONE_RAW as int)),
    {
        let a: i128 = self.raw() as i128;
        let b: i128 = other.raw() as i128;
        assert(-0x4000_0000_0000_0000_0000_0000 <= a * b <= 0x4000_0000_0000_0000_0000_0000)
            by (nonlinear_arith)
            requires
                -0x8000_0000_0000 <= a <= 0x8000_0000_0000,
                -0x8000_0000_0000 <= b <= 0x8000_0000_0000,
        ;
        Fixed::from_wide(div_floor(a * b, ONE_RAW as i128))
    }
}

} // verus!
