//! Channels: the numeric types a colour component can have, and the
//! conversions between them.
use crate::fixed::{distance, div_floor, nearest, Fixed, ONE_RAW};
use vstd::prelude::*;

verus! {

/// The step of an integer channel with the maximum `max` that is nearest to the
/// raw value `raw`, halves rounded up; values outside `[0, 1]` go to the
/// nearer end.
pub open spec fn quantize(raw: int, max: int) -> int {
    if raw <= 0 {
        0
    } else if raw >= ONE_RAW {
        max
    } else {
        (2 * raw * max + ONE_RAW) / (2 * ONE_RAW)
    }
}

/// A numeric type for one colour component. Every channel stands for a real
/// number: an integer channel spreads its steps evenly over `[0, 1]`, and
/// `Fixed` stands for itself.
pub trait Channel: Copy + Sized {
    /// The raw fixed-point value nearest to the number that `self` stands for.
    spec fn level(self) -> int;

    /// The component nearest to the number with the raw value `raw`.
    spec fn from_level(raw: int) -> Self;

    /// The fixed-point number nearest to the one that `self` stands for.
    fn to_fixed(self) -> (x: Fixed)
        ensures
            x@ == self.level(),
    ;

    /// The component nearest to `x`.
    fn from_fixed(x: Fixed) -> (c: Self)
        ensures
            c == Self::from_level(x@),
    ;
}

/// The component `c` in the channel `U`: the nearest step of `U` to the number
/// that `c` stands for.
pub fn to_channel<T: Channel, U: Channel>(c: T) -> (r: U)
    ensures
        r == U::from_level(c.level()),
{
    U::from_fixed(c.to_fixed())
}

impl Channel for u8 {
    open spec fn level(self) -> int {
        nearest(self as int, 255)
    }

    open spec fn from_level(raw: int) -> u8 {
        quantize(raw, 255) as u8
    }

    fn to_fixed(self) -> (x: Fixed) {
        let top: i128 = 2 * (self as i128) * 0x1_0000_0000 + 255;
        Fixed::from_wide(div_floor(top, 510))
    }

    fn from_fixed(x: Fixed) -> (c: u8) {
        let raw: i64 = x.raw();
        if raw <= 0 {
            0
        } else if raw >= ONE_RAW {
            255
        } else {
            ((2 * (raw as i128) * 255 + 0x1_0000_0000) / 0x2_0000_0000) as u8
        }
    }
}

impl Channel for u16 {
    open spec fn level(self) -> int {
        nearest(self as int, 65535)
    }

    open spec fn from_level(raw: int) -> u16 {
        quantize(raw, 65535) as u16
    }

    fn to_fixed(self) -> (x: Fixed) {
        let top: i128 = 2 * (self as i128) * 0x1_0000_0000 + 65535;
        Fixed::from_wide(div_floor(top, 131070))
    }

    fn from_fixed(x: Fixed) -> (c: u16) {
        let raw: i64 = x.raw();
        if raw <= 0 {
            0
        } else if raw >= ONE_RAW {
            65535
        } else {
            ((2 * (raw as i128) * 65535 + 0x1_0000_0000) / 0x2_0000_0000) as u16
        }
    }
}

impl Channel for Fixed {
    open spec fn level(self) -> int {
        self@
    }

    open spec fn from_level(raw: int) -> Fixed {
        Fixed::of_raw(raw)
    }

    fn to_fixed(self) -> (x: Fixed) {
        self
    }

    fn from_fixed(x: Fixed) -> (c: Fixed) {
        let raw: i64 = x.raw();
        Fixed::from_raw(raw)
    }
}

/// The raw value of step `n` of a channel with the maximum `max`, and the step
/// that it is quantized to in a channel with the maximum `max2`, where `n` of
/// `max` is the same fraction as `n2` of `max2`.
proof fn lemma_requantize(n: int, max: int, n2: int, max2: int)
    requires
        0 <= n <= max,
        0 < max <= 65535,
        0 < max2 <= 65535,
        n * max2 == n2 * max,
    ensures
        quantize(nearest(n, max), max2) == n2,
{
    let s = 0x1_0000_0000int;
    let q = (2 * n * s + max) / (2 * max);
    assert(nearest(n, max) == q);
    assert(0 <= n2 <= max2) by (nonlinear_arith)
        requires
            0 <= n <= max,
            0 < max,
            0 < max2,
            n * max2 == n2 * max,
    ;
    // q is within half a unit of n s / max
    assert(2 * max * q <= 2 * n * s + max < 2 * max * q + 2 * max) by (nonlinear_arith)
        requires
            q == (2 * n * s + max) / (2 * max),
            max > 0,
    ;
    if n == 0 {
        assert(q == 0) by (nonlinear_arith)
            requires
                2 * max * q <= max < 2 * max * q + 2 * max,
                max > 0,
        ;
        assert(n2 == 0) by (nonlinear_arith)
            requires
                0 == n2 * max,
                max > 0,
        ;
    } else if n == max {
        assert(q == s) by (nonlinear_arith)
            requires
                2 * max * q <= 2 * max * s + max < 2 * max * q + 2 * max,
                max > 0,
        ;
        assert(n2 == max2) by (nonlinear_arith)
            requires
                max * max2 == n2 * max,
                max > 0,
        ;
    } else {
        assert(0 < q < s) by (nonlinear_arith)
            requires
                2 * max * q <= 2 * n * s + max < 2 * max * q + 2 * max,
                0 < n < max,
                s == 0x1_0000_0000,
                max <= 65535,
        ;
        let r = (2 * q * max2 + s) / (2 * s);
        assert(quantize(q, max2) == r);
        // 2 max (2 q max2 + s) is within 2 max max2 of 4 n2 max s + 2 max s
        assert(r == n2) by (nonlinear_arith)
            requires
                r == (2 * q * max2 + s) / (2 * s),
                2 * max * q <= 2 * n * s + max < 2 * max * q + 2 * max,
                n * max2 == n2 * max,
                s == 0x1_0000_0000,
                0 < max <= 65535,
                0 < max2 <= 65535,
                0 <= n2 <= max2,
        ;
    }
}

/// An 8-bit component taken to 16 bits is the same fraction of the range,
/// `257 n` of 65535 for `n` of 255, and comes back as it was.
pub proof fn lemma_u8_through_u16(n: u8)
    ensures
        u16::from_level(n.level()) == 257 * n,
        u8::from_level(u16::from_level(n.level()).level()) == n,
{
    lemma_requantize(n as int, 255, 257 * n, 65535);
    lemma_requantize(257 * n, 65535, n as int, 255);
}

/// An 8-bit component taken to fixed point comes back as it was.
pub proof fn lemma_u8_through_fixed(n: u8)
    ensures
        u8::from_level(Fixed::from_level(n.level()).level()) == n,
{
    lemma_requantize(n as int, 255, n as int, 255);
    Fixed::lemma_of_raw(n.level());
}

/// A 16-bit component taken to fixed point comes back as it was.
pub proof fn lemma_u16_through_fixed(n: u16)
    ensures
        u16::from_level(Fixed::from_level(n.level()).level()) == n,
{
    lemma_requantize(n as int, 65535, n as int, 65535);
    Fixed::lemma_of_raw(n.level());
}

/// An 8-bit component is the nearest one to every number within eight million
/// raw units, almost half a step, of the number that it stands for.
pub proof fn lemma_u8_has_room(n: u8, raw: int)
    requires
        distance(raw, n.level()) <= 8000000,
    ensures
        u8::from_level(raw) == n,
{
    let s = 0x1_0000_0000int;
    let level = (2 * n * s + 255) / 510;
    assert(n.level() == level);
    assert(510 * level <= 2 * n * s + 255 < 510 * level + 510);
    if 0 < raw < s {
        let q = (2 * raw * 255 + s) / (2 * s);
        assert(quantize(raw, 255) == q);
        assert(2 * s * q <= 510 * raw + s < 2 * s * q + 2 * s);
        assert(q == n);
    }
}

/// Narrowing clamps: what lies outside `[0, 1]` goes to the nearer end of an
/// integer channel.
pub proof fn lemma_narrowing_clamps(raw: int)
    ensures
        raw <= 0 ==> u8::from_level(raw) == 0 && u16::from_level(raw) == 0,
        raw >= ONE_RAW ==> u8::from_level(raw) == 255 && u16::from_level(raw) == 65535,
{
}

} // verus!
