//! CIE xyY: chromaticity and luminance.
use crate::color_space::WhitePoint;
use crate::fixed::{div_floor, floor_div, saturate, Fixed, ONE_RAW};
use crate::xyz::{ToXyz, Xyz};
use vstd::prelude::*;

verus! {

/// A colour as chromaticity coordinates `x`, `y` and luminance `luma`,
/// relative to the reference white `Wp`.
#[derive(Clone, Copy, Debug)]
pub struct Yxy<Wp> {
    pub x: Fixed,
    pub y: Fixed,
    pub luma: Fixed,
    pub white_point: Wp,
}

/// The quotient of two raw values as a raw value, rounded down and saturated;
/// zero where the divisor is zero.
pub open spec fn ratio(part: int, whole: int) -> int {
    if whole == 0 {
        0
    } else {
        saturate(floor_div(part * ONE_RAW, whole))
    }
}

/// The product of `factor` with the quotient `part / whole` as a raw value,
/// rounded down and saturated; zero where the divisor is zero.
pub open spec fn scaled_ratio(factor: int, part: int, whole: int) -> int {
    if whole == 0 {
        0
    } else {
        saturate(floor_div(factor * part, whole))
    }
}

/// Computes `scaled_ratio` for operands of at most 50 and 48 bits.
pub(crate) fn quotient(factor: i128, part: i128, whole: i128) -> (q: Fixed)
    requires
        -0x4_0000_0000_0000 <= factor <= 0x4_0000_0000_0000,
        -0x1_0000_0000_0000 <= part <= 0x1_0000_0000_0000,
        -0x4_0000_0000_0000 <= whole <= 0x4_0000_0000_0000,
    ensures
        q@ == scaled_ratio(factor as int, part as int, whole as int),
{
    if whole == 0 {
        return Fixed::zero();
    }
    assert(-0x4_0000_0000_0000_0000_0000_0000 <= factor * part <= 0x4_0000_0000_0000_0000_0000_0000)
        by (nonlinear_arith)
        requires
            -0x4_0000_0000_0000 <= factor <= 0x4_0000_0000_0000,
            -0x1_0000_0000_0000 <= part <= 0x1_0000_0000_0000,
    ;
    let top: i128 = factor * part;
    if whole > 0 {
        Fixed::from_wide(div_floor(top, whole))
    } else {
        Fixed::from_wide(div_floor(-top, -whole))
    }
}

impl<Wp: WhitePoint> Yxy<Wp> {
    /// The colour with this chromaticity and luminance.
    pub fn new(x: Fixed, y: Fixed, luma: Fixed) -> (c: Yxy<Wp>)
        ensures
            c.x == x,
            c.y == y,
            c.luma == luma,
            c.white_point == Wp::tag_value(),
    {
        Yxy { x, y, luma, white_point: Wp::tag() }
    }
}

impl<Wp: WhitePoint> ToXyz for Yxy<Wp> {
    type WhitePoint = Wp;

    /// `X = x * luma / y`, `Y = luma` and `Z = (1 - x - y) * luma / y`.
    /// Where `y` is zero there is no such colour, and the result is black.
    open spec fn xyz_levels(&self) -> (int, int, int) {
        (
            scaled_ratio(self.x@, self.luma@, self.y@),
            if self.y@ == 0 {
                0
            } else {
                self.luma@
            },
            scaled_ratio(ONE_RAW - self.x@ - self.y@, self.luma@, self.y@),
        )
    }

    fn to_xyz(&self) -> (c: Xyz<Wp>) {
        let x: i128 = self.x.raw() as i128;
        let y: i128 = self.y.raw() as i128;
        let luma: i128 = self.luma.raw() as i128;
        if y == 0 {
            let zero: Fixed = Fixed::zero();
            return Xyz { x: zero, y: zero, z: zero, white_point: Wp::tag() };
        }
        Xyz {
            x: quotient(x, luma, y),
            y: self.luma,
            z: quotient((ONE_RAW as i128) - x - y, luma, y),
            white_point: Wp::tag(),
        }
    }
}

} // verus!
