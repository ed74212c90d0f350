//! CIE XYZ, the space through which every conversion passes.
use crate::bignat::BigNat;
use crate::channel::Channel;
use crate::color_space::{Mat3, WhitePoint, D65};
use crate::fixed::{div_floor, floor_div, saturate, Fixed, ONE_RAW};
use crate::lab::Lab;
use crate::power::lemma_pow3;
use crate::root::{bounded_root, floor_root, lemma_floor_root_below_bound};
use crate::srgb::{xyz_to_srgb, Srgb};
use crate::yxy::{quotient, ratio, Yxy};
use vstd::arithmetic::power::pow;
use vstd::prelude::*;

verus! {

/// A colour as CIE tristimulus values, relative to the reference white `Wp`.
#[derive(Clone, Copy, Debug)]
pub struct Xyz<Wp> {
    pub x: Fixed,
    pub y: Fixed,
    pub z: Fixed,
    pub white_point: Wp,
}

/// Colours that have a form in CIE XYZ.
pub trait ToXyz {
    /// The reference white of that form.
    type WhitePoint: WhitePoint;

    /// The raw values of X, Y and Z of that form.
    spec fn xyz_levels(&self) -> (int, int, int);

    /// The colour in CIE XYZ.
    fn to_xyz(&self) -> (c: Xyz<Self::WhitePoint>)
        ensures
            c.x@ == self.xyz_levels().0,
            c.y@ == self.xyz_levels().1,
            c.z@ == self.xyz_levels().2,
            c.white_point == Self::WhitePoint::tag_value(),
    ;
}

/// The CIE lightness response to the ratio `t / white` of a tristimulus value
/// to that of white, times `gain`: the cube root of the ratio where it is above
/// 216/24389, and `24389/27 * t / white + 16/116` at or below it. Raw values
/// in, raw value out, rounded down.
pub open spec fn lab_response(t: int, white: int, gain: int) -> int
    recommends
        white > 0,
        gain > 0,
{
    if 24389 * t > 216 * white {
        floor_root(3, t * pow(gain * ONE_RAW, 3), white)
    } else {
        floor_div(gain * ONE_RAW * (707281 * t + 108 * white), 783 * white)
    }
}

/// The raw values of `L`, `a` and `b` of the colour with the raw tristimulus
/// values `x`, `y`, `z` under the white `xn`, `yn`, `zn`. With `f` the
/// response to X/Xn, Y/Yn and Z/Zn, lightness is `116 f(Y/Yn) - 16`, `a` is
/// `500 f(X/Xn) - 500 f(Y/Yn)` and `b` is `200 f(Y/Yn) - 200 f(Z/Zn)`, each
/// term rounded down and each difference saturated.
pub open spec fn xyz_to_lab(x: int, y: int, z: int, xn: int, yn: int, zn: int) -> (int, int, int) {
    (
        saturate(lab_response(y, yn, 116) - 16 * ONE_RAW),
        saturate(lab_response(x, xn, 500) - lab_response(y, yn, 500)),
        saturate(lab_response(y, yn, 200) - lab_response(z, zn, 200)),
    )
}

/// Computes `lab_response`.
pub(crate) fn response(t: Fixed, white: Fixed, gain: u16) -> (f: i128)
    requires
        white@ > 0,
        0 < gain <= 1000,
    ensures
        f == lab_response(t@, white@, gain as int),
        -0x1_0000_0000_0000_0000_0000_0000_0000 < f < 0x1_0000_0000_0000_0000_0000_0000_0000,
{
    let tr: i64 = t.raw();
    let wr: i64 = white.raw();
    if 24389 * (tr as i128) > 216 * (wr as i128) {
        let unit: u64 = (gain as u64) * 0x1_0000_0000;
        let num: BigNat = BigNat::from_u64(tr as u64).mul_pow(unit, 3);
        let den: BigNat = BigNat::from_u64(wr as u64);
        let limit: u64 = 0x400_0000_0000_0000;
        let r: u64 = bounded_root(&num, &den, 3, limit);
        proof {
            lemma_pow3(unit as int);
            lemma_pow3(limit as int);
            let u = unit as int;
            let l = limit as int;
            assert(tr * (u * u * u) < (l * l * l) * wr) by (nonlinear_arith)
                requires
                    0 < tr < 0x8000_0000_0000,
                    wr >= 1,
                    0 < u <= 0x3E8_0000_0000,
                    l == 0x400_0000_0000_0000,
            ;
            assert(0 <= tr * (u * u * u)) by (nonlinear_arith)
                requires
                    0 < tr,
                    0 < u,
            ;
            lemma_floor_root_below_bound(3, num@ as int, den@ as int, l);
        }
        r as i128
    } else {
        let unit: i128 = (gain as i128) * 0x1_0000_0000;
        let inner: i128 = 707281 * (tr as i128) + 108 * (wr as i128);
        proof {
            let w = wr as int;
            assert(-0x1_0000_0000_0000_0000_0000_0000_0000 < unit * inner
                < 0x1_0000_0000_0000_0000_0000_0000_0000) by (nonlinear_arith)
                requires
                    0 < unit <= 0x3E8_0000_0000,
                    -0x8_0000_0000_0000_0000 <= inner <= 0x8_0000_0000_0000_0000,
            ;
            let q = (unit * inner) / (783 * w);
            assert(-0x1_0000_0000_0000_0000_0000_0000_0000 < q
                < 0x1_0000_0000_0000_0000_0000_0000_0000) by (nonlinear_arith)
                requires
                    q == (unit * inner) / (783 * w),
                    w >= 1,
                    -0x1_0000_0000_0000_0000_0000_0000_0000 < unit * inner
                        < 0x1_0000_0000_0000_0000_0000_0000_0000,
            ;
            assert(gain * ONE_RAW * (707281 * tr + 108 * wr) == unit * inner) by (nonlinear_arith)
                requires
                    unit == gain * ONE_RAW,
                    inner == 707281 * tr + 108 * wr,
            ;
        }
        let top: i128 = unit * inner;
        div_floor(top, 783 * (wr as i128))
    }
}

impl<Wp: WhitePoint> Xyz<Wp> {
    /// The colour with these tristimulus values.
    pub fn new(x: Fixed, y: Fixed, z: Fixed) -> (c: Xyz<Wp>)
        ensures
            c.x == x,
            c.y == y,
            c.z == z,
            c.white_point == Wp::tag_value(),
    {
        Xyz { x, y, z, white_point: Wp::tag() }
    }

    /// The component-wise sum of two colours under the same white.
    pub fn add(self, other: Xyz<Wp>) -> (c: Xyz<Wp>)
        ensures
            c.x@ == saturate(self.x@ + other.x@),
            c.y@ == saturate(self.y@ + other.y@),
            c.z@ == saturate(self.z@ + other.z@),
            c.white_point == Wp::tag_value(),
    {
        Xyz {
            x: self.x.add(other.x),
            y: self.y.add(other.y),
            z: self.z.add(other.z),
            white_point: Wp::tag(),
        }
    }

    /// The colour with every component multiplied by `factor`.
    pub fn mul(self, factor: Fixed) -> (c: Xyz<Wp>)
        ensures
            c.x@ == saturate((self.x@ * factor@) / (ONE_RAW as int)),
            c.y@ == saturate((self.y@ * factor@) / (ONE_RAW as int)),
            c.z@ == saturate((self.z@ * factor@) / (ONE_RAW as int)),
            c.white_point == Wp::tag_value(),
    {
        Xyz {
            x: self.x.mul(factor),
            y: self.y.mul(factor),
            z: self.z.mul(factor),
            white_point: Wp::tag(),
        }
    }

    /// The colour in CIE L*a*b* under the same white.
    pub fn to_lab(&self) -> (c: Lab<Wp>)
        ensures
            (c.l@, c.a@, c.b@) == xyz_to_lab(
                self.x@,
                self.y@,
                self.z@,
                Wp::xn(),
                Wp::yn(),
                Wp::zn(),
            ),
            c.white_point == Wp::tag_value(),
    {
        let white: Xyz<Wp> = Wp::xyz();
        proof {
            Wp::lemma_white_is_positive();
        }
        let l: i128 = response(self.y, white.y, 116) - 16 * (ONE_RAW as i128);
        let a: i128 = response(self.x, white.x, 500) - response(self.y, white.y, 500);
        let b: i128 = response(self.y, white.y, 200) - response(self.z, white.z, 200);
        Lab {
            l: Fixed::from_wide(l),
            a: Fixed::from_wide(a),
            b: Fixed::from_wide(b),
            white_point: Wp::tag(),
        }
    }

    /// The colour as chromaticity and luminance: `x = X / (X + Y + Z)`,
    /// `y = Y / (X + Y + Z)` and `luma = Y`. Black, whose sum is zero, has
    /// `x = y = 0`.
    pub fn to_yxy(&self) -> (c: Yxy<Wp>)
        ensures
            c.x@ == ratio(self.x@, self.x@ + self.y@ + self.z@),
            c.y@ == ratio(self.y@, self.x@ + self.y@ + self.z@),
            c.luma@ == self.y@,
            c.white_point == Wp::tag_value(),
    {
        let x: i128 = self.x.raw() as i128;
        let y: i128 = self.y.raw() as i128;
        let z: i128 = self.z.raw() as i128;
        let sum: i128 = x + y + z;
        Yxy {
            x: quotient(ONE_RAW as i128, x, sum),
            y: quotient(ONE_RAW as i128, y, sum),
            luma: self.y,
            white_point: Wp::tag(),
        }
    }
}

impl Xyz<D65> {
    /// The colour in display-encoded sRGB, in the channel `U`: the three
    /// values taken through the inverse matrix of the sRGB primaries to linear
    /// light, then each component encoded.
    pub fn to_rgb<U: Channel>(&self) -> (c: Srgb<U>)
        ensures
            c.r == U::from_level(xyz_to_srgb(self.x@, self.y@, self.z@).0),
            c.g == U::from_level(xyz_to_srgb(self.x@, self.y@, self.z@).1),
            c.b == U::from_level(xyz_to_srgb(self.x@, self.y@, self.z@).2),
    {
        let m: Mat3 = Srgb::to_rgb_matrix();
        let w: [Fixed; 3] = m.apply([self.x, self.y, self.z]);
        let r: U = U::from_fixed(Srgb::from_linear(w[0]));
        let g: U = U::from_fixed(Srgb::from_linear(w[1]));
        let b: U = U::from_fixed(Srgb::from_linear(w[2]));
        Srgb { r, g, b }
    }
}

} // verus!
