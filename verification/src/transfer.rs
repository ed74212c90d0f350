//! The sRGB transfer function: the curve between linear light and the
//! display-encoded signal, in both directions.
use crate::bignat::BigNat;
use crate::fixed::{distance, div_floor, floor_div, saturate, Fixed, MAX_RAW, ONE_RAW};
use crate::power::{
    lemma_pow12, lemma_pow5, lemma_pow7, lemma_pow_monotone, lemma_pow_order_converse,
    lemma_pow_strictly_monotone, lemma_pow_sum_lower, lemma_pow_sum_upper, lemma_pow_unfold,
};
use crate::root::{
    bounded_root, floor_root, lemma_floor_root_at_least, lemma_floor_root_exists,
    lemma_floor_root_monotone,
};
use crate::srgb::Srgb;
use vstd::arithmetic::power::{lemma_pow_adds, lemma_pow_distributes, lemma_pow_positive, pow};
use vstd::prelude::*;

verus! {

/// The sRGB decoding curve on raw values: `v / 12.92` up to 0.04045, and
/// `((v + 0.055) / 1.055)^2.4` above, rounded down and saturated.
pub open spec fn srgb_decode(v: int) -> int {
    if 20000 * v <= 809 * ONE_RAW {
        floor_div(25 * v, 323)
    } else {
        saturate(
            floor_root(
                5,
                pow(ONE_RAW as int, 5) * pow(200 * v + 11 * ONE_RAW, 12),
                pow(211 * ONE_RAW, 12),
            ),
        )
    }
}

/// The sRGB encoding curve on raw values: `12.92 v` up to 0.0031308, and
/// `1.055 v^(1/2.4) - 0.055` above, rounded down and saturated.
pub open spec fn srgb_encode(v: int) -> int {
    if 2500000 * v <= 7827 * ONE_RAW {
        saturate(floor_div(323 * v, 25))
    } else {
        saturate(
            floor_div(
                floor_root(12, pow(211, 12) * pow(ONE_RAW as int, 7) * pow(v, 5), 1) - 11
                    * ONE_RAW,
                200,
            ),
        )
    }
}

impl Srgb<Fixed> {
    /// Decodes one display-encoded component to linear light.
    pub fn to_linear(x: Fixed) -> (y: Fixed)
        ensures
            y@ == srgb_decode(x@),
    {
        let v: i64 = x.raw();
        if 20000 * (v as i128) <= 809 * 0x1_0000_0000 {
            Fixed::from_wide(div_floor(25 * (v as i128), 323))
        } else {
            let n: u64 = (200 * v + 11 * 0x1_0000_0000) as u64;
            let num: BigNat = BigNat::from_u64(1).mul_pow(0x1_0000_0000, 5).mul_pow(n, 12);
            let den: BigNat = BigNat::from_u64(1).mul_pow(211 * 0x1_0000_0000, 12);
            proof {
                vstd::arithmetic::power::lemma_pow_positive(211 * ONE_RAW, 12);
                vstd::arithmetic::power::lemma_pow_positive(ONE_RAW as int, 5);
                vstd::arithmetic::power::lemma_pow_positive(n as int, 12);
                assert(num@ == pow(ONE_RAW as int, 5) * pow(200 * v + 11 * ONE_RAW, 12)) by {
                    assert(1 * pow(ONE_RAW as int, 5) == pow(ONE_RAW as int, 5));
                }
                assert(0 <= pow(ONE_RAW as int, 5) * pow(n as int, 12)) by (nonlinear_arith)
                    requires
                        0 < pow(ONE_RAW as int, 5),
                        0 < pow(n as int, 12),
                ;
                lemma_floor_root_exists(5, num@ as int, den@ as int);
            }
            let r: u64 = bounded_root(&num, &den, 5, MAX_RAW as u64);
            Fixed::from_raw(r as i64)
        }
    }

    /// Encodes one linear-light component for display.
    pub fn from_linear(x: Fixed) -> (y: Fixed)
        ensures
            y@ == srgb_encode(x@),
    {
        let v: i64 = x.raw();
        if 2500000 * (v as i128) <= 7827 * 0x1_0000_0000 {
            Fixed::from_wide(div_floor(323 * (v as i128), 25))
        } else {
            let scale: BigNat = BigNat::from_u64(1).mul_pow(211, 12).mul_pow(0x1_0000_0000, 7);
            let num: BigNat = scale.mul_pow(v as u64, 5);
            let den: BigNat = BigNat::from_u64(1);
            let limit: u64 = 0x4000_0000_0000_0000;
            proof {
                vstd::arithmetic::power::lemma_pow_positive(211, 12);
                vstd::arithmetic::power::lemma_pow_positive(ONE_RAW as int, 7);
                vstd::arithmetic::power::lemma_pow_positive(v as int, 5);
                let a = pow(211, 12);
                let b = pow(ONE_RAW as int, 7);
                let c = pow(v as int, 5);
                assert(1 * a == a);
                assert(0 <= a * b * c) by (nonlinear_arith)
                    requires
                        0 < a,
                        0 < b,
                        0 < c,
                ;
                lemma_floor_root_exists(12, num@ as int, 1);
            }
            let m: u64 = bounded_root(&num, &den, 12, limit);
            Fixed::from_wide(div_floor((m as i128) - 11 * 0x1_0000_0000, 200))
        }
    }
}

/// The scale between the two curves: with `x` decoded from `v`, the fifth
/// power of `x` times this scale brackets the twelfth power of `200 v + 11`.
pub open spec fn curve_scale() -> int {
    pow(211, 12) * pow(ONE_RAW as int, 7)
}

/// The number whose power the curves take: `v + 0.055` as a multiple of
/// 1/200 of a raw unit.
pub open spec fn lifted(v: int) -> int {
    200 * v + 11 * ONE_RAW
}

/// The scale is positive, and it is what the power of 211 times one has over
/// the fifth power of one.
proof fn lemma_curve_scale_positive()
    ensures
        curve_scale() > 0,
        pow(ONE_RAW as int, 5) > 0,
        pow(211 * ONE_RAW, 12) == pow(ONE_RAW as int, 5) * curve_scale(),
{
    let s = ONE_RAW as int;
    lemma_pow_positive(211, 12);
    lemma_pow_positive(s, 7);
    lemma_pow_positive(s, 5);
    lemma_pow_distributes(211, s, 12);
    lemma_pow_adds(s, 5, 7);
    let a = pow(211, 12);
    let b = pow(s, 5);
    let c = pow(s, 7);
    assert(a * c > 0) by (nonlinear_arith)
        requires
            a > 0,
            c > 0,
    ;
    assert(a * (b * c) == b * (a * c)) by (nonlinear_arith);
}

/// Above its knee, decoding brackets the power: with `x` decoded from `v`,
/// `scale * x^5 <= (200 v + 11)^12 < scale * (x + 1)^5`.
proof fn lemma_decode_bracket(v: int)
    requires
        20000 * v > 809 * ONE_RAW,
        v <= 2 * ONE_RAW,
    ensures
        ({
            let x = srgb_decode(v);
            &&& 0 <= x < 8 * ONE_RAW
            &&& curve_scale() * pow(x, 5) <= pow(lifted(v), 12)
            &&& pow(lifted(v), 12) < curve_scale() * pow(x + 1, 5)
        }),
{
    let s = ONE_RAW as int;
    let n = lifted(v);
    let c = curve_scale();
    let s5 = pow(s, 5);
    let n12 = pow(n, 12);
    let num = s5 * n12;
    let den = pow(211 * s, 12);
    lemma_curve_scale_positive();
    lemma_pow_positive(n, 12);
    assert(den > 0 && num >= 0) by (nonlinear_arith)
        requires
            den == s5 * c,
            num == s5 * n12,
            s5 > 0,
            c > 0,
            n12 > 0,
    ;
    lemma_floor_root_exists(5, num, den);
    let f = floor_root(5, num, den);
    let f5 = pow(f, 5);
    let g5 = pow(f + 1, 5);
    assert(c * f5 <= n12 && n12 < c * g5) by (nonlinear_arith)
        requires
            f5 * den <= num,
            num < g5 * den,
            den == s5 * c,
            num == s5 * n12,
            s5 > 0,
    ;
    // the root stays below 8.0
    if f >= 8 * s {
        lemma_pow_monotone(8 * s, f, 5);
        lemma_pow_distributes(8, s, 5);
        lemma_pow5(8);
        lemma_pow_monotone(n, 422 * s, 12);
        lemma_pow_distributes(2, 211 * s, 12);
        lemma_pow12(2);
        let e5 = pow(8 * s, 5);
        let m12 = pow(422 * s, 12);
        assert(422 * s == 2 * (211 * s));
        assert(false) by (nonlinear_arith)
            requires
                e5 == 32768 * s5,
                e5 <= f5,
                f5 * den <= num,
                num == s5 * n12,
                n12 <= m12,
                m12 == 4096 * den,
                den > 0,
                s5 > 0,
        ;
    }
}

/// Above its knee, encoding brackets the power: with `w` encoded from `x`,
/// there is an `m` with `m^12 <= scale * x^5 < (m + 1)^12` and
/// `200 w + 11 <= m < 200 (w + 1) + 11`.
proof fn lemma_encode_bracket(x: int) -> (m: int)
    requires
        2500000 * x > 7827 * ONE_RAW,
        x <= 16 * ONE_RAW,
    ensures
        ({
            let w = srgb_encode(x);
            &&& 0 <= m
            &&& pow(m, 12) <= curve_scale() * pow(x, 5)
            &&& curve_scale() * pow(x, 5) < pow(m + 1, 12)
            &&& lifted(w) <= m < lifted(w + 1)
        }),
{
    let s = ONE_RAW as int;
    let c = curve_scale();
    let x5 = pow(x, 5);
    lemma_curve_scale_positive();
    lemma_pow_positive(x, 5);
    assert(c * x5 >= 0) by (nonlinear_arith)
        requires
            c > 0,
            x5 > 0,
    ;
    let a = pow(211, 12);
    let b = pow(s, 7);
    assert(a * b * x5 == c * x5);
    lemma_floor_root_exists(12, c * x5, 1);
    let m = floor_root(12, c * x5, 1);
    assert(pow(m, 12) * 1 == pow(m, 12));
    assert(pow(m + 1, 12) * 1 == pow(m + 1, 12));
    // the root stays below 2^53
    let top = 0x20_0000_0000_0000int;
    if m >= top {
        lemma_pow_monotone(top, m, 12);
        lemma_pow_monotone(x, 16 * s, 5);
        lemma_pow12(top);
        lemma_pow12(211);
        lemma_pow7(s);
        lemma_pow5(16 * s);
        let t12 = pow(top, 12);
        let y5 = pow(16 * s, 5);
        assert(t12 > c * y5) by (nonlinear_arith)
            requires
                t12 == top * top * top * top * top * top * top * top * top * top * top * top,
                top == 0x20_0000_0000_0000,
                c == a * b,
                a == 211int * 211 * 211 * 211 * 211 * 211 * 211 * 211 * 211 * 211 * 211 * 211,
                b == s * s * s * s * s * s * s,
                s == 0x1_0000_0000,
                y5 == (16 * s) * (16 * s) * (16 * s) * (16 * s) * (16 * s),
        ;
        assert(c * x5 <= c * y5) by (nonlinear_arith)
            requires
                x5 <= y5,
                c > 0,
        ;
        assert(false);
    }
    m
}

/// Just above the knee of the decoding curve, the decoded value is at least
/// 13446714.
proof fn lemma_decode_at_knee()
    ensures
        curve_scale() * pow(13446714, 5) <= pow(81990925856, 12),
{
    let c = curve_scale();
    let a = pow(211, 12);
    let b = pow(ONE_RAW as int, 7);
    lemma_pow12(211);
    lemma_pow7(ONE_RAW as int);
    let x5 = pow(13446714, 5);
    lemma_pow5(13446714);
    let n12 = pow(81990925856, 12);
    lemma_pow12(81990925856);
    assert(c * x5 <= n12) by (nonlinear_arith)
        requires
            c == a * b,
            a == 211int * 211 * 211 * 211 * 211 * 211 * 211 * 211 * 211 * 211 * 211 * 211,
            b == 4294967296int * 4294967296 * 4294967296 * 4294967296 * 4294967296 * 4294967296
                    * 4294967296,
            x5 == 13446714int * 13446714 * 13446714 * 13446714 * 13446714,
            n12 == 81990925856int * 81990925856 * 81990925856 * 81990925856 * 81990925856
                    * 81990925856 * 81990925856 * 81990925856 * 81990925856 * 81990925856
                    * 81990925856 * 81990925856,
    ;
}

/// At the knee of the encoding curve, the scale is at most `6110^12 x^7`.
proof fn lemma_encode_slope_at_knee()
    ensures
        curve_scale() <= pow(6110, 12) * pow(13446684, 7),
{
    let c = curve_scale();
    let a = pow(211, 12);
    let b = pow(ONE_RAW as int, 7);
    lemma_pow12(211);
    lemma_pow7(ONE_RAW as int);
    let k12 = pow(6110, 12);
    lemma_pow12(6110);
    let x7 = pow(13446684, 7);
    lemma_pow7(13446684);
    assert(c <= k12 * x7) by (nonlinear_arith)
        requires
            c == a * b,
            a == 211int * 211 * 211 * 211 * 211 * 211 * 211 * 211 * 211 * 211 * 211 * 211,
            b == 4294967296int * 4294967296 * 4294967296 * 4294967296 * 4294967296 * 4294967296
                    * 4294967296,
            k12 == 6110int * 6110 * 6110 * 6110 * 6110 * 6110 * 6110 * 6110 * 6110 * 6110 * 6110
                    * 6110,
            x7 == 13446684int * 13446684 * 13446684 * 13446684 * 13446684 * 13446684 * 13446684,
    ;
}

/// Just above the knee of the encoding curve, the encoded value is at least
/// 173731034.
proof fn lemma_encode_at_knee()
    ensures
        pow(81990847056, 12) <= curve_scale() * pow(13446684, 5),
{
    let c = curve_scale();
    let a = pow(211, 12);
    let b = pow(ONE_RAW as int, 7);
    lemma_pow12(211);
    lemma_pow7(ONE_RAW as int);
    let n12 = pow(81990847056, 12);
    lemma_pow12(81990847056);
    let x5 = pow(13446684, 5);
    lemma_pow5(13446684);
    assert(n12 <= c * x5) by (nonlinear_arith)
        requires
            c == a * b,
            a == 211int * 211 * 211 * 211 * 211 * 211 * 211 * 211 * 211 * 211 * 211 * 211,
            b == 4294967296int * 4294967296 * 4294967296 * 4294967296 * 4294967296 * 4294967296
                    * 4294967296,
            n12 == 81990847056int * 81990847056 * 81990847056 * 81990847056 * 81990847056
                    * 81990847056 * 81990847056 * 81990847056 * 81990847056 * 81990847056
                    * 81990847056 * 81990847056,
            x5 == 13446684int * 13446684 * 13446684 * 13446684 * 13446684,
    ;
}

/// The encoding of 13446704, the largest value that decoding reaches below its
/// knee, is at most 173731558.
proof fn lemma_encode_below_knee_image()
    ensures
        curve_scale() * pow(13446704, 5) < pow(81990952056, 12),
{
    let c = curve_scale();
    let a = pow(211, 12);
    let b = pow(ONE_RAW as int, 7);
    lemma_pow12(211);
    lemma_pow7(ONE_RAW as int);
    let x5 = pow(13446704, 5);
    lemma_pow5(13446704);
    let n12 = pow(81990952056, 12);
    lemma_pow12(81990952056);
    assert(c * x5 < n12) by (nonlinear_arith)
        requires
            c == a * b,
            a == 211int * 211 * 211 * 211 * 211 * 211 * 211 * 211 * 211 * 211 * 211 * 211,
            b == 4294967296int * 4294967296 * 4294967296 * 4294967296 * 4294967296 * 4294967296
                    * 4294967296,
            x5 == 13446704int * 13446704 * 13446704 * 13446704 * 13446704,
            n12 == 81990952056int * 81990952056 * 81990952056 * 81990952056 * 81990952056
                    * 81990952056 * 81990952056 * 81990952056 * 81990952056 * 81990952056
                    * 81990952056 * 81990952056,
    ;
}

/// From 13446715 on, the encoded value is above the knee of the decoding curve.
proof fn lemma_encode_reaches_knee()
    ensures
        pow(81990925856, 12) <= curve_scale() * pow(13446715, 5),
{
    let c = curve_scale();
    let a = pow(211, 12);
    let b = pow(ONE_RAW as int, 7);
    lemma_pow12(211);
    lemma_pow7(ONE_RAW as int);
    let n12 = pow(81990925856, 12);
    lemma_pow12(81990925856);
    let x5 = pow(13446715, 5);
    lemma_pow5(13446715);
    assert(n12 <= c * x5) by (nonlinear_arith)
        requires
            c == a * b,
            a == 211int * 211 * 211 * 211 * 211 * 211 * 211 * 211 * 211 * 211 * 211 * 211,
            b == 4294967296int * 4294967296 * 4294967296 * 4294967296 * 4294967296 * 4294967296
                    * 4294967296,
            n12 == 81990925856int * 81990925856 * 81990925856 * 81990925856 * 81990925856
                    * 81990925856 * 81990925856 * 81990925856 * 81990925856 * 81990925856
                    * 81990925856 * 81990925856,
            x5 == 13446715int * 13446715 * 13446715 * 13446715 * 13446715,
    ;
}

/// From `b^12 <= c y^5` and `c x^5 < a^12` with `b^12 >= a^11 (a + k)` and
/// `y^5 <= x^4 (x + e)`: `k x < e a`.
proof fn lemma_squeeze_encode(
    a: int,
    x: int,
    k: int,
    e: int,
    a11: int,
    x4: int,
    y5: int,
    b12: int,
    c: int,
)
    requires
        a > 0,
        x > 0,
        k >= 0,
        a11 > 0,
        x4 > 0,
        c > 0,
        b12 <= c * y5,
        c * (x * x4) < a * a11,
        b12 >= a11 * (a + k),
        y5 <= x4 * (x + e),
    ensures
        k * x < e * a,
{
    let u = x * x4;
    assert(u > 0) by (nonlinear_arith)
        requires
            u == x * x4,
            x > 0,
            x4 > 0,
    ;
    assert(a11 * (a + k) > 0) by (nonlinear_arith)
        requires
            a11 > 0,
            a > 0,
            k >= 0,
    ;
    assert(y5 > 0) by (nonlinear_arith)
        requires
            c > 0,
            c * y5 > 0,
    ;
    assert(b12 * u <= (c * y5) * u) by (nonlinear_arith)
        requires
            b12 <= c * y5,
            u > 0,
    ;
    assert((c * u) * y5 < (a * a11) * y5) by (nonlinear_arith)
        requires
            c * u < a * a11,
            y5 > 0,
    ;
    assert((c * y5) * u == (c * u) * y5) by (nonlinear_arith);
    assert(a * a11 > 0) by (nonlinear_arith)
        requires
            a > 0,
            a11 > 0,
    ;
    assert((a * a11) * y5 <= (a * a11) * (x4 * (x + e))) by (nonlinear_arith)
        requires
            y5 <= x4 * (x + e),
            a * a11 > 0,
    ;
    assert((a11 * (a + k)) * u <= b12 * u) by (nonlinear_arith)
        requires
            a11 * (a + k) <= b12,
            u > 0,
    ;
    let z = a11 * x4;
    assert(z > 0) by (nonlinear_arith)
        requires
            z == a11 * x4,
            a11 > 0,
            x4 > 0,
    ;
    assert((a11 * (a + k)) * u == z * ((a + k) * x)) by (nonlinear_arith)
        requires
            u == x * x4,
            z == a11 * x4,
    ;
    assert((a * a11) * (x4 * (x + e)) == z * (a * (x + e))) by (nonlinear_arith)
        requires
            z == a11 * x4,
    ;
    assert((a + k) * x < a * (x + e)) by (nonlinear_arith)
        requires
            z * ((a + k) * x) < z * (a * (x + e)),
            z > 0,
    ;
    assert((a + k) * x == a * x + k * x) by (nonlinear_arith);
    assert(a * (x + e) == a * x + e * a) by (nonlinear_arith);
}

/// From `c x^5 < (n + 200)^12` and `n^12 < c y^5` with `x >= y + k`: `y` is
/// more than `5 k / 2411` times `n`.
proof fn lemma_squeeze_decode(
    n: int,
    y: int,
    k: int,
    n11: int,
    y4: int,
    x5: int,
    m12: int,
    c: int,
)
    requires
        n > 0,
        y > 0,
        k >= 0,
        n11 > 0,
        y4 > 0,
        c > 0,
        c * x5 < m12,
        n * n11 < c * (y * y4),
        x5 >= y4 * (y + 5 * k),
        m12 <= n11 * (n + 2411),
    ensures
        5 * k * n < 2411 * y,
{
    let u = y * y4;
    let v = n * n11;
    assert(u > 0) by (nonlinear_arith)
        requires
            u == y * y4,
            y > 0,
            y4 > 0,
    ;
    assert(v > 0) by (nonlinear_arith)
        requires
            v == n * n11,
            n > 0,
            n11 > 0,
    ;
    assert(y4 * (y + 5 * k) > 0) by (nonlinear_arith)
        requires
            y4 > 0,
            y > 0,
            k >= 0,
    ;
    assert(x5 * v < x5 * (c * u)) by (nonlinear_arith)
        requires
            v < c * u,
            x5 > 0,
    ;
    assert((c * x5) * u < m12 * u) by (nonlinear_arith)
        requires
            c * x5 < m12,
            u > 0,
    ;
    assert(x5 * (c * u) == (c * x5) * u) by (nonlinear_arith);
    assert(m12 * u <= (n11 * (n + 2411)) * u) by (nonlinear_arith)
        requires
            m12 <= n11 * (n + 2411),
            u > 0,
    ;
    assert((y4 * (y + 5 * k)) * v <= x5 * v) by (nonlinear_arith)
        requires
            y4 * (y + 5 * k) <= x5,
            v > 0,
    ;
    let z = n11 * y4;
    assert(z > 0) by (nonlinear_arith)
        requires
            z == n11 * y4,
            n11 > 0,
            y4 > 0,
    ;
    assert((y4 * (y + 5 * k)) * v == z * ((y + 5 * k) * n)) by (nonlinear_arith)
        requires
            v == n * n11,
            z == n11 * y4,
    ;
    assert((n11 * (n + 2411)) * u == z * ((n + 2411) * y)) by (nonlinear_arith)
        requires
            u == y * y4,
            z == n11 * y4,
    ;
    assert((y + 5 * k) * n < (n + 2411) * y) by (nonlinear_arith)
        requires
            z * ((y + 5 * k) * n) < z * ((n + 2411) * y),
            z > 0,
    ;
    assert((y + 5 * k) * n == y * n + 5 * k * n) by (nonlinear_arith);
    assert((n + 2411) * y == y * n + 2411 * y) by (nonlinear_arith);
}

/// Above the knee, a display value decoded and encoded again comes back at
/// most 24 raw units lower, and never higher.
proof fn lemma_encode_decode_above_knee(v: int)
    requires
        20000 * v > 809 * ONE_RAW,
        v <= 2 * ONE_RAW,
    ensures
        v - 24 <= srgb_encode(srgb_decode(v)) <= v,
        2500000 * srgb_decode(v) > 7827 * ONE_RAW,
{
    let c = curve_scale();
    let x = srgb_decode(v);
    let n = lifted(v);
    lemma_curve_scale_positive();
    lemma_decode_bracket(v);
    assert(n >= 81990925856);
    if x < 13446714 {
        lemma_pow_monotone(x + 1, 13446714, 5);
        lemma_pow_monotone(81990925856, n, 12);
        lemma_decode_at_knee();
        assert(c * pow(x + 1, 5) <= c * pow(13446714, 5)) by (nonlinear_arith)
            requires
                pow(x + 1, 5) <= pow(13446714, 5),
                c > 0,
        ;
        assert(false);
    }
    let m = lemma_encode_bracket(x);
    let w = srgb_encode(x);
    let x5 = pow(x, 5);
    lemma_pow_positive(x, 5);
    // never higher
    if w > v {
        lemma_pow_monotone(n + 200, lifted(w), 12);
        lemma_pow_monotone(lifted(w), m, 12);
        lemma_pow_strictly_monotone(n, n + 200, 12);
        assert(false);
    }
    // at most 24 lower
    if w < v - 24 {
        let a = lifted(w + 1);
        let b = n;
        assert(b >= a + 4800);
        assert(a >= m + 1);
        // m <= 6110 x, so a <= 6400 x
        lemma_encode_slope_at_knee();
        lemma_pow_monotone(13446684, x, 7);
        lemma_pow_adds(x, 7, 5);
        lemma_pow_distributes(6110, x, 12);
        lemma_pow_positive(6110, 12);
        let k12 = pow(6110, 12);
        let x7 = pow(x, 7);
        let x12 = pow(x, 12);
        assert(c * x5 <= pow(6110 * x, 12)) by (nonlinear_arith)
            requires
                c <= k12 * pow(13446684, 7),
                pow(13446684, 7) <= x7,
                k12 > 0,
                x5 > 0,
                x12 == x7 * x5,
                pow(6110 * x, 12) == k12 * x12,
        ;
        lemma_pow_order_converse(m, 6110 * x, 12);
        assert(a <= 6400 * x);
        // the chain
        lemma_pow_monotone(a + 4800, b, 12);
        lemma_pow_sum_lower(a, 4800, 12);
        lemma_pow_sum_upper(x, 1, 5);
        lemma_pow_monotone(m + 1, a, 12);
        lemma_pow_unfold(a, 11);
        lemma_pow_unfold(x, 4);
        lemma_pow_positive(a, 11);
        lemma_pow_positive(x, 4);
        let a11 = pow(a, 11);
        let x4 = pow(x, 4);
        assert(12 * 4800 == 57600 && 5 * (1 + 1) - 1 == 9);
        lemma_squeeze_encode(a, x, 57600, 9, a11, x4, pow(x + 1, 5), pow(b, 12), c);
        assert(false);
    }
}

/// The encoding of 2.0 is at most 2.0.
proof fn lemma_encode_of_two()
    ensures
        curve_scale() * pow(8589934592, 5) <= pow(1765231558656, 12),
{
    let c = curve_scale();
    let a = pow(211, 12);
    let b = pow(ONE_RAW as int, 7);
    lemma_pow12(211);
    lemma_pow7(ONE_RAW as int);
    let x5 = pow(8589934592, 5);
    lemma_pow5(8589934592);
    let n12 = pow(1765231558656, 12);
    lemma_pow12(1765231558656);
    assert(c * x5 <= n12) by (nonlinear_arith)
        requires
            c == a * b,
            a == 211int * 211 * 211 * 211 * 211 * 211 * 211 * 211 * 211 * 211 * 211 * 211,
            b == 4294967296int * 4294967296 * 4294967296 * 4294967296 * 4294967296 * 4294967296
                    * 4294967296,
            x5 == 8589934592int * 8589934592 * 8589934592 * 8589934592 * 8589934592,
            n12 == 1765231558656int * 1765231558656 * 1765231558656 * 1765231558656 * 1765231558656
                    * 1765231558656 * 1765231558656 * 1765231558656 * 1765231558656
                    * 1765231558656 * 1765231558656 * 1765231558656,
    ;
}

/// Up to 2.0, the decoded value is at most 1/64 of the number whose power it
/// is.
proof fn lemma_decode_is_flat()
    ensures
        pow(64, 5) * pow(1765231558656, 7) <= curve_scale(),
{
    let c = curve_scale();
    let a = pow(211, 12);
    let b = pow(ONE_RAW as int, 7);
    lemma_pow12(211);
    lemma_pow7(ONE_RAW as int);
    let k5 = pow(64, 5);
    lemma_pow5(64);
    let n7 = pow(1765231558656, 7);
    lemma_pow7(1765231558656);
    assert(k5 * n7 <= c) by (nonlinear_arith)
        requires
            c == a * b,
            a == 211int * 211 * 211 * 211 * 211 * 211 * 211 * 211 * 211 * 211 * 211 * 211,
            b == 4294967296int * 4294967296 * 4294967296 * 4294967296 * 4294967296 * 4294967296
                    * 4294967296,
            k5 == 64int * 64 * 64 * 64 * 64,
            n7 == 1765231558656int * 1765231558656 * 1765231558656 * 1765231558656 * 1765231558656
                    * 1765231558656 * 1765231558656,
    ;
}

/// Where the encoded value is above the knee of the decoding curve, a linear
/// value encoded and decoded again comes back at most 8 raw units lower, and
/// never higher.
proof fn lemma_decode_encode_above_knee(x: int)
    requires
        2500000 * x > 7827 * ONE_RAW,
        x <= 2 * ONE_RAW,
        20000 * srgb_encode(x) > 809 * ONE_RAW,
    ensures
        x - 8 <= srgb_decode(srgb_encode(x)) <= x,
{
    let s = ONE_RAW as int;
    let c = curve_scale();
    let w = srgb_encode(x);
    let x5 = pow(x, 5);
    lemma_curve_scale_positive();
    lemma_pow_positive(x, 5);
    let m = lemma_encode_bracket(x);
    let n = lifted(w);
    // w <= 2.0
    lemma_encode_of_two();
    lemma_pow_monotone(x, 2 * s, 5);
    assert(c * x5 <= c * pow(2 * s, 5)) by (nonlinear_arith)
        requires
            x5 <= pow(2 * s, 5),
            c > 0,
    ;
    lemma_pow_order_converse(m, 411 * s, 12);
    assert(w <= 2 * s);
    lemma_decode_bracket(w);
    let y = srgb_decode(w);
    let y5 = pow(y, 5);
    // never higher
    lemma_pow_monotone(n, m, 12);
    assert(y5 <= x5) by (nonlinear_arith)
        requires
            c * y5 <= c * x5,
            c > 0,
    ;
    lemma_pow_order_converse(y, x, 5);
    // at most 8 lower
    if y < x - 8 {
        let y1 = y + 1;
        // 64 y <= n
        if 64 * y > n {
            lemma_decode_is_flat();
            lemma_pow_strictly_monotone(n, 64 * y, 5);
            lemma_pow_distributes(64, y, 5);
            lemma_pow_adds(n, 5, 7);
            lemma_pow_monotone(n, 411 * s, 7);
            lemma_pow_positive(n, 5);
            lemma_pow_positive(64, 5);
            let n5 = pow(n, 5);
            let n7 = pow(n, 7);
            let k5 = pow(64, 5);
            assert(false) by (nonlinear_arith)
                requires
                    n5 < k5 * y5,
                    c * y5 <= n5 * n7,
                    n7 <= pow(411 * s, 7),
                    k5 * pow(411 * s, 7) <= c,
                    n5 > 0,
                    k5 > 0,
                    c > 0,
            ;
        }
        lemma_pow_monotone(y1 + 8, x, 5);
        lemma_pow_sum_lower(y1, 8, 5);
        lemma_pow_sum_upper(n, 200, 12);
        lemma_pow_monotone(m + 1, n + 200, 12);
        lemma_pow_unfold(n, 11);
        lemma_pow_unfold(y1, 4);
        lemma_pow_positive(n, 11);
        lemma_pow_positive(y1, 4);
        assert(5 * 8 == 40 && 12 * (200 + 1) - 1 == 2411 && 12 * (200 + 1) * 200 == 482400);
        lemma_squeeze_decode(
            n,
            y1,
            8,
            pow(n, 11),
            pow(y1, 4),
            x5,
            pow(n + 200, 12),
            c,
        );
        assert(false);
    }
}

/// Decoding never turns an order round: of two display values, the higher
/// decodes to at least as much light.
pub proof fn lemma_decode_is_monotone(v1: int, v2: int)
    requires
        v1 <= v2,
    ensures
        srgb_decode(v1) <= srgb_decode(v2),
{
    let s = ONE_RAW as int;
    let den = pow(211 * s, 12);
    lemma_pow_positive(211 * s, 12);
    lemma_pow_positive(s, 5);
    if 20000 * v2 > 809 * s {
        let n2 = lifted(v2);
        let num2 = pow(s, 5) * pow(n2, 12);
        if 20000 * v1 > 809 * s {
            let n1 = lifted(v1);
            lemma_pow_monotone(n1, n2, 12);
            assert(0 <= pow(s, 5) * pow(n1, 12) <= num2) by (nonlinear_arith)
                requires
                    0 <= pow(n1, 12) <= pow(n2, 12),
                    pow(s, 5) > 0,
                    num2 == pow(s, 5) * pow(n2, 12),
            ;
            lemma_floor_root_monotone(5, pow(s, 5) * pow(n1, 12), num2, den);
        } else {
            // below the knee at most 13446704, above it at least 13446714
            lemma_decode_at_knee();
            lemma_curve_scale_positive();
            lemma_pow_monotone(81990925856, n2, 12);
            let c = curve_scale();
            let x5 = pow(13446714, 5);
            assert(x5 * den <= num2) by (nonlinear_arith)
                requires
                    c * x5 <= pow(81990925856, 12),
                    pow(81990925856, 12) <= pow(n2, 12),
                    den == pow(s, 5) * c,
                    num2 == pow(s, 5) * pow(n2, 12),
                    pow(s, 5) > 0,
            ;
            lemma_floor_root_at_least(13446714, 5, num2, den);
        }
    }
}

/// On each of its two segments, encoding never turns an order round. (From the
/// one to the other it does: the two meet at 0.0031308 only to within three
/// parts in a hundred million, and the linear one ends the higher.)
pub proof fn lemma_encode_is_monotone(x1: int, x2: int)
    requires
        x1 <= x2,
        (2500000 * x1 <= 7827 * ONE_RAW) == (2500000 * x2 <= 7827 * ONE_RAW),
    ensures
        srgb_encode(x1) <= srgb_encode(x2),
{
    if 2500000 * x1 > 7827 * ONE_RAW {
        let c = curve_scale();
        lemma_curve_scale_positive();
        lemma_pow_monotone(x1, x2, 5);
        assert(0 <= c * pow(x1, 5) <= c * pow(x2, 5)) by (nonlinear_arith)
            requires
                0 <= pow(x1, 5) <= pow(x2, 5),
                c > 0,
        ;
        lemma_floor_root_monotone(12, c * pow(x1, 5), c * pow(x2, 5), 1);
    }
}

/// Both curves take zero to zero and one to one.
pub proof fn lemma_curves_fix_zero_and_one()
    ensures
        srgb_decode(0) == 0,
        srgb_encode(0) == 0,
        srgb_decode(ONE_RAW as int) == ONE_RAW,
        srgb_encode(ONE_RAW as int) == ONE_RAW,
{
    let s = ONE_RAW as int;
    let c = curve_scale();
    lemma_curve_scale_positive();
    // decoding one: (200 + 11) / 211 is one
    lemma_decode_bracket(s);
    let x = srgb_decode(s);
    assert(lifted(s) == 211 * s);
    lemma_pow_order_converse(x, s, 5);
    lemma_pow_order_converse(s, x + 1, 5);
    assert(pow(x, 5) <= pow(s, 5) && pow(s, 5) < pow(x + 1, 5)) by (nonlinear_arith)
        requires
            c * pow(x, 5) <= pow(s, 5) * c,
            pow(s, 5) * c < c * pow(x + 1, 5),
            c > 0,
    ;
    // encoding one: 211 - 11 is 200
    let m = lemma_encode_bracket(s);
    lemma_pow_adds(s, 7, 5);
    lemma_pow_distributes(211, s, 12);
    let s12 = pow(s, 12);
    assert(c * pow(s, 5) == pow(211 * s, 12)) by (nonlinear_arith)
        requires
            c == pow(211, 12) * pow(s, 7),
            s12 == pow(s, 7) * pow(s, 5),
            pow(211 * s, 12) == pow(211, 12) * s12,
    ;
    lemma_pow_order_converse(m, 211 * s, 12);
    lemma_pow_order_converse(211 * s, m + 1, 12);
    assert(m == 211 * s);
}

/// Decoding keeps `[0, 1]` within `[0, 1]`.
pub proof fn lemma_decode_keeps_unit_range(v: int)
    requires
        0 <= v <= ONE_RAW,
    ensures
        0 <= srgb_decode(v) <= ONE_RAW,
{
    if 20000 * v > 809 * ONE_RAW {
        let s = ONE_RAW as int;
        let c = curve_scale();
        let x = srgb_decode(v);
        lemma_curve_scale_positive();
        lemma_decode_bracket(v);
        if x > s {
            lemma_pow_monotone(s + 1, x, 5);
            lemma_pow_strictly_monotone(s, s + 1, 5);
            lemma_pow_monotone(lifted(v), 211 * s, 12);
            assert(false) by (nonlinear_arith)
                requires
                    c * pow(x, 5) <= pow(lifted(v), 12),
                    pow(lifted(v), 12) <= pow(211 * s, 12),
                    pow(211 * s, 12) == pow(s, 5) * c,
                    pow(s, 5) < pow(s + 1, 5),
                    pow(s + 1, 5) <= pow(x, 5),
                    c > 0,
            ;
        }
    }
}

/// Between the knee of the encoding curve and the image of the knee of the
/// decoding curve, the encoded value is between 173731034 and 173731558.
proof fn lemma_encode_between_knees(x: int)
    requires
        13446684 <= x <= 13446704,
    ensures
        173731034 <= srgb_encode(x) <= 173731558,
{
    let c = curve_scale();
    lemma_curve_scale_positive();
    let m = lemma_encode_bracket(x);
    let x5 = pow(x, 5);
    lemma_encode_at_knee();
    lemma_encode_below_knee_image();
    lemma_pow_monotone(13446684, x, 5);
    lemma_pow_monotone(x, 13446704, 5);
    assert(c * pow(13446684, 5) <= c * x5 <= c * pow(13446704, 5)) by (nonlinear_arith)
        requires
            pow(13446684, 5) <= x5 <= pow(13446704, 5),
            c > 0,
    ;
    lemma_pow_order_converse(lifted(173731034), m + 1, 12);
    lemma_pow_order_converse(m, lifted(173731559), 12);
}

/// On its curved segment, encoding grows by at most 23 for each raw unit, and
/// one more.
proof fn lemma_encode_step(x: int, d: int)
    requires
        2500000 * x > 7827 * ONE_RAW,
        0 <= d <= 1600,
        x + d <= 16 * ONE_RAW,
    ensures
        srgb_encode(x) <= srgb_encode(x + d) <= srgb_encode(x) + 23 * d + 1,
{
    let c = curve_scale();
    lemma_curve_scale_positive();
    lemma_encode_is_monotone(x, x + d);
    let m1 = lemma_encode_bracket(x);
    let m2 = lemma_encode_bracket(x + d);
    let a = m1 + 1;
    if d > 0 && m2 >= a + 4600 * d {
        let x5 = pow(x, 5);
        lemma_pow_positive(x, 5);
        // m1 <= 6110 x
        lemma_encode_slope_at_knee();
        lemma_pow_monotone(13446684, x, 7);
        lemma_pow_adds(x, 7, 5);
        lemma_pow_distributes(6110, x, 12);
        lemma_pow_positive(6110, 12);
        let k12 = pow(6110, 12);
        let x7 = pow(x, 7);
        let x12 = pow(x, 12);
        assert(c * x5 <= pow(6110 * x, 12)) by (nonlinear_arith)
            requires
                c <= k12 * pow(13446684, 7),
                pow(13446684, 7) <= x7,
                k12 > 0,
                x5 > 0,
                x12 == x7 * x5,
                pow(6110 * x, 12) == k12 * x12,
        ;
        lemma_pow_order_converse(m1, 6110 * x, 12);
        // the chain
        assert(x >= 5 * (d + 1) * d) by (nonlinear_arith)
            requires
                x >= 13446684,
                0 <= d <= 1600,
        ;
        lemma_pow_monotone(a + 4600 * d, m2, 12);
        lemma_pow_sum_lower(a, 4600 * d, 12);
        lemma_pow_sum_upper(x, d, 5);
        lemma_pow_unfold(a, 11);
        lemma_pow_unfold(x, 4);
        lemma_pow_positive(a, 11);
        lemma_pow_positive(x, 4);
        let k = 12 * (4600 * d);
        let e = 5 * (d + 1) - 1;
        lemma_squeeze_encode(
            a,
            x,
            k,
            e,
            pow(a, 11),
            pow(x, 4),
            pow(x + d, 5),
            pow(m2, 12),
            c,
        );
        assert(false) by (nonlinear_arith)
            requires
                k * x < e * a,
                k == 55200 * d,
                e == 5 * d + 4,
                a <= 6110 * x + 1,
                d >= 1,
                x >= 1,
        ;
    }
}

/// Encoding takes near values to near values: over a step of up to 3200 raw
/// units it rises by at most 36 for each raw unit, and 420 more, and it falls
/// by at most 110, from the one segment to the other.
pub proof fn lemma_encode_is_lipschitz(x: int, x2: int)
    requires
        -ONE_RAW <= x <= x2 <= 2 * ONE_RAW,
        x2 - x <= 3200,
    ensures
        -110 <= srgb_encode(x2) - srgb_encode(x) <= 36 * (x2 - x) + 420,
{
    if 2500000 * x2 <= 7827 * ONE_RAW {
        assert(srgb_encode(x) == (323 * x) / 25);
        assert(srgb_encode(x2) == (323 * x2) / 25);
    } else if 2500000 * x > 7827 * ONE_RAW {
        let d1 = (x2 - x) / 2;
        lemma_encode_step(x, d1);
        lemma_encode_step(x + d1, x2 - x - d1);
    } else {
        // up to the knee, over it, and on from it
        let knee = 13446684int;
        assert(srgb_encode(x) == (323 * x) / 25);
        lemma_encode_between_knees(knee);
        let d1 = (x2 - knee) / 2;
        lemma_encode_step(knee, d1);
        lemma_encode_step(knee + d1, x2 - knee - d1);
    }
}

/// A display value in `[-1, 2]`, decoded to linear light and encoded again,
/// comes back within 400 raw units, less than one part in ten million.
pub proof fn lemma_encode_undoes_decode(v: int)
    requires
        -ONE_RAW <= v <= 2 * ONE_RAW,
    ensures
        distance(srgb_encode(srgb_decode(v)), v) <= 400,
{
    let c = curve_scale();
    lemma_curve_scale_positive();
    if 20000 * v <= 809 * ONE_RAW {
        let x = srgb_decode(v);
        assert(x == (25 * v) / 323);
        if 2500000 * x > 7827 * ONE_RAW {
            // the few values between the two knees
            assert(13446684 <= x <= 13446704);
            assert(173731158 <= v <= 173731427);
            lemma_encode_between_knees(x);
        }
    } else {
        lemma_encode_decode_above_knee(v);
    }
}

/// A linear value in `[-1, 2]`, encoded for display and decoded again, comes
/// back within 40 raw units, about one part in a hundred million.
pub proof fn lemma_decode_undoes_encode(x: int)
    requires
        -ONE_RAW <= x <= 2 * ONE_RAW,
    ensures
        distance(srgb_decode(srgb_encode(x)), x) <= 40,
{
    let c = curve_scale();
    lemma_curve_scale_positive();
    if 2500000 * x <= 7827 * ONE_RAW {
        let w = srgb_encode(x);
        assert(w == (323 * x) / 25);
    } else {
        let w = srgb_encode(x);
        if 20000 * w > 809 * ONE_RAW {
            lemma_decode_encode_above_knee(x);
        } else {
            // the few values between the two knees
            let m = lemma_encode_bracket(x);
            let x5 = pow(x, 5);
            assert(x >= 13446684);
            lemma_encode_at_knee();
            lemma_pow_monotone(13446684, x, 5);
            assert(c * pow(13446684, 5) <= c * x5) by (nonlinear_arith)
                requires
                    pow(13446684, 5) <= x5,
                    c > 0,
            ;
            lemma_pow_order_converse(lifted(173731034), m + 1, 12);
            assert(173731034 <= w <= 173731427);
            if x >= 13446715 {
                lemma_encode_reaches_knee();
                lemma_pow_monotone(13446715, x, 5);
                assert(c * pow(13446715, 5) <= c * x5) by (nonlinear_arith)
                    requires
                        pow(13446715, 5) <= x5,
                        c > 0,
                ;
                lemma_pow_order_converse(lifted(173731428), m + 1, 12);
                assert(false);
            }
            assert(srgb_decode(w) == (25 * w) / 323);
        }
    }
}

} // verus!
