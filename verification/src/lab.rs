//! CIE L*a*b*.
use crate::bignat::BigNat;
use crate::color_space::WhitePoint;
use crate::fixed::{div_floor, floor_div, saturate, Fixed, MAX_RAW, ONE_RAW};
use crate::power::{lemma_cube_order, lemma_pow3};
use crate::root::{bounded_root, floor_root, lemma_floor_root_exists, lemma_floor_root_one};
use crate::xyz::{ToXyz, Xyz};
use vstd::prelude::*;

verus! {

/// A colour in CIE L*a*b*: lightness and two opponent axes, relative to the
/// reference white `Wp`.
#[derive(Clone, Copy, Debug)]
pub struct Lab<Wp> {
    pub l: Fixed,
    pub a: Fixed,
    pub b: Fixed,
    pub white_point: Wp,
}

/// The tristimulus value that gives the lightness response `p / q` under a
/// white with the raw tristimulus value `white`: `white` times the cube of the
/// response where that cube is above 216/24389, and times
/// `(p / q - 16/116) / (24389/27)` where it is not. A raw value, rounded down.
pub open spec fn lab_inverse_response(p: int, q: int, white: int) -> int
    recommends
        q > 0,
        white > 0,
{
    if 24389 * (p * p * p) > 216 * (q * q * q) {
        (p * p * p * white) / (q * q * q)
    } else {
        floor_div(27 * (29 * p - 4 * q) * white, 707281 * q)
    }
}

/// The raw tristimulus values of the colour with the raw values `l`, `a`, `b`
/// under the white `xn`, `yn`, `zn`. With `fy = (L + 16) / 116`,
/// `fx = a / 500 + fy` and `fz = fy - b / 200`, each of X, Y, Z is the
/// tristimulus value that gives that response, saturated.
pub open spec fn lab_to_xyz(l: int, a: int, b: int, xn: int, yn: int, zn: int) -> (int, int, int) {
    let py = l + 16 * ONE_RAW;
    (
        saturate(lab_inverse_response(29 * a + 125 * py, 14500 * ONE_RAW, xn)),
        saturate(lab_inverse_response(py, 116 * ONE_RAW, yn)),
        saturate(lab_inverse_response(50 * py - 29 * b, 5800 * ONE_RAW, zn)),
    )
}

/// The length of the vector `(a, b)` of raw values, rounded down and
/// saturated.
pub open spec fn chroma(a: int, b: int) -> int {
    saturate(floor_root(2, a * a + b * b, 1))
}

/// One component of the vector of length `chroma` after the vector was
/// lengthened by `delta` along its direction; unchanged where the vector has
/// no length, and so no direction.
pub open spec fn offset_component(component: int, chroma: int, delta: int) -> int {
    if chroma == 0 {
        component
    } else {
        saturate(component + floor_div(component * delta, chroma))
    }
}

/// A full turn in radians, 2 pi, as a raw value rounded down.
pub const TURN_RAW: i64 = 26986075409;

/// The hue that belongs to an angle in radians: the angle itself, and a full
/// turn more where it is negative.
pub open spec fn hue_of_angle(angle: int) -> int {
    if angle < 0 {
        angle + TURN_RAW
    } else {
        angle
    }
}

/// The hue of an angle between minus a full turn and a full turn is at least
/// zero and less than a full turn.
pub proof fn lemma_hue_is_within_a_turn(angle: int)
    requires
        -TURN_RAW <= angle < TURN_RAW,
    ensures
        0 <= hue_of_angle(angle) < TURN_RAW,
{
}

/// Computes `lab_inverse_response`, saturated.
pub(crate) fn inverse_response(p: i128, q: u64, white: Fixed) -> (t: Fixed)
    requires
        -0x100_0000_0000_0000 <= p <= 0x100_0000_0000_0000,
        0 < q <= 0x8000_0000_0000,
        white@ > 0,
    ensures
        t@ == saturate(lab_inverse_response(p as int, q as int, white@)),
{
    let w: i64 = white.raw();
    proof {
        lemma_cube_order(29 * p, 6 * q);
        assert((29 * p) * (29 * p) * (29 * p) == 24389 * (p * p * p)) by (nonlinear_arith);
        assert((6 * q) * (6 * q) * (6 * q) == 216 * (q * q * q)) by (nonlinear_arith);
    }
    if 29 * p > 6 * (q as i128) {
        let num: BigNat = BigNat::from_u64(w as u64).mul_pow(p as u64, 3);
        let den: BigNat = BigNat::from_u64(1).mul_pow(q, 3);
        proof {
            lemma_pow3(p as int);
            lemma_pow3(q as int);
            assert(w * (p * p * p) == p * p * p * w) by (nonlinear_arith);
            assert(1 * (q * q * q) == q * q * q);
            assert(0 < q * q * q) by (nonlinear_arith)
                requires
                    0 < q,
            ;
            assert(0 <= p * p * p * w) by (nonlinear_arith)
                requires
                    0 < p,
                    0 < w,
            ;
            lemma_floor_root_one(p * p * p * w, q * q * q);
            assert(0 <= (p * p * p * w) / (q * q * q)) by (nonlinear_arith)
                requires
                    0 <= p * p * p * w,
                    0 < q * q * q,
            ;
        }
        let r: u64 = bounded_root(&num, &den, 1, MAX_RAW as u64);
        Fixed::from_raw(r as i64)
    } else {
        let lead: i128 = 27 * (29 * p - 4 * (q as i128));
        assert(-0x100_0000_0000_0000_0000_0000_0000_0000 <= lead * w
            <= 0x100_0000_0000_0000_0000_0000_0000_0000) by (nonlinear_arith)
            requires
                -0x8_0000_0000_0000_0000 <= lead <= 0x8_0000_0000_0000_0000,
                0 < w <= 0x8000_0000_0000,
        ;
        Fixed::from_wide(div_floor(lead * (w as i128), 707281 * (q as i128)))
    }
}

impl<Wp: WhitePoint> Lab<Wp> {
    /// The colour with this lightness and these opponent axes.
    pub fn new(l: Fixed, a: Fixed, b: Fixed) -> (c: Lab<Wp>)
        ensures
            c.l == l,
            c.a == a,
            c.b == b,
            c.white_point == Wp::tag_value(),
    {
        Lab { l, a, b, white_point: Wp::tag() }
    }

    /// The lightness.
    pub fn brightness(&self) -> (l: Fixed)
        ensures
            l == self.l,
    {
        self.l
    }

    /// The distance from the neutral axis: the length of `(a, b)`.
    pub fn chromacity(&self) -> (c: Fixed)
        ensures
            c@ == chroma(self.a@, self.b@),
    {
        let a: i128 = self.a.raw() as i128;
        let b: i128 = self.b.raw() as i128;
        assert(0 <= a * a <= 0x4000_0000_0000_0000_0000_0000) by (nonlinear_arith)
            requires
                -0x8000_0000_0000 <= a <= 0x8000_0000_0000,
        ;
        assert(0 <= b * b <= 0x4000_0000_0000_0000_0000_0000) by (nonlinear_arith)
            requires
                -0x8000_0000_0000 <= b <= 0x8000_0000_0000,
        ;
        let sum: u128 = (a * a + b * b) as u128;
        let num: BigNat = BigNat::from_u128(sum);
        let den: BigNat = BigNat::from_u64(1);
        let r: u64 = bounded_root(&num, &den, 2, MAX_RAW as u64);
        proof {
            lemma_floor_root_exists(2, sum as int, 1);
        }
        Fixed::from_raw(r as i64)
    }

    /// The hue of a colour whose `(a, b)` has the angle `angle` to the `a`
    /// axis, in radians: the angle brought into the turn that starts at zero.
    pub fn hue_from_angle(angle: Fixed) -> (h: Fixed)
        ensures
            h@ == hue_of_angle(angle@),
    {
        let raw: i64 = angle.raw();
        if raw < 0 {
            Fixed::from_raw(raw + TURN_RAW)
        } else {
            angle
        }
    }

    /// The colour with its chromacity changed by `chroma_offset` along the
    /// direction of `(a, b)`, and the same lightness. A colour on the neutral
    /// axis has no such direction and comes back unchanged.
    pub fn offset_chromacity(&self, chroma_offset: Fixed) -> (c: Lab<Wp>)
        ensures
            c.l == self.l,
            c.a@ == offset_component(self.a@, chroma(self.a@, self.b@), chroma_offset@),
            c.b@ == offset_component(self.b@, chroma(self.a@, self.b@), chroma_offset@),
            c.white_point == Wp::tag_value(),
    {
        let current: i128 = self.chromacity().raw() as i128;
        proof {
            assert(0 <= self.a@ * self.a@ + self.b@ * self.b@) by (nonlinear_arith);
            lemma_floor_root_exists(2, self.a@ * self.a@ + self.b@ * self.b@, 1);
        }
        if current == 0 {
            return Lab { l: self.l, a: self.a, b: self.b, white_point: Wp::tag() };
        }
        let a: i128 = self.a.raw() as i128;
        let b: i128 = self.b.raw() as i128;
        let d: i128 = chroma_offset.raw() as i128;
        assert(-0x4000_0000_0000_0000_0000_0000 <= a * d <= 0x4000_0000_0000_0000_0000_0000)
            by (nonlinear_arith)
            requires
                -0x8000_0000_0000 <= a <= 0x8000_0000_0000,
                -0x8000_0000_0000 <= d <= 0x8000_0000_0000,
        ;
        assert(-0x4000_0000_0000_0000_0000_0000 <= b * d <= 0x4000_0000_0000_0000_0000_0000)
            by (nonlinear_arith)
            requires
                -0x8000_0000_0000 <= b <= 0x8000_0000_0000,
                -0x8000_0000_0000 <= d <= 0x8000_0000_0000,
        ;
        let qa: i128 = div_floor(a * d, current);
        let qb: i128 = div_floor(b * d, current);
        assert(-0x4000_0000_0000_0000_0000_0000 <= qa <= 0x4000_0000_0000_0000_0000_0000)
            by (nonlinear_arith)
            requires
                qa == (a * d) / (current as int),
                current >= 1,
                -0x4000_0000_0000_0000_0000_0000 <= a * d <= 0x4000_0000_0000_0000_0000_0000,
        ;
        assert(-0x4000_0000_0000_0000_0000_0000 <= qb <= 0x4000_0000_0000_0000_0000_0000)
            by (nonlinear_arith)
            requires
                qb == (b * d) / (current as int),
                current >= 1,
                -0x4000_0000_0000_0000_0000_0000 <= b * d <= 0x4000_0000_0000_0000_0000_0000,
        ;
        Lab {
            l: self.l,
            a: Fixed::from_wide(a + qa),
            b: Fixed::from_wide(b + qb),
            white_point: Wp::tag(),
        }
    }

    /// The component-wise sum of two colours under the same white.
    pub fn add(self, other: Lab<Wp>) -> (c: Lab<Wp>)
        ensures
            c.l@ == saturate(self.l@ + other.l@),
            c.a@ == saturate(self.a@ + other.a@),
            c.b@ == saturate(self.b@ + other.b@),
            c.white_point == Wp::tag_value(),
    {
        Lab {
            l: self.l.add(other.l),
            a: self.a.add(other.a),
            b: self.b.add(other.b),
            white_point: Wp::tag(),
        }
    }

    /// The colour with every component multiplied by `factor`.
    pub fn mul(self, factor: Fixed) -> (c: Lab<Wp>)
        ensures
            c.l@ == saturate((self.l@ * factor@) / (ONE_RAW as int)),
            c.a@ == saturate((self.a@ * factor@) / (ONE_RAW as int)),
            c.b@ == saturate((self.b@ * factor@) / (ONE_RAW as int)),
            c.white_point == Wp::tag_value(),
    {
        Lab {
            l: self.l.mul(factor),
            a: self.a.mul(factor),
            b: self.b.mul(factor),
            white_point: Wp::tag(),
        }
    }
}

impl<Wp: WhitePoint> ToXyz for Lab<Wp> {
    type WhitePoint = Wp;

    open spec fn xyz_levels(&self) -> (int, int, int) {
        lab_to_xyz(self.l@, self.a@, self.b@, Wp::xn(), Wp::yn(), Wp::zn())
    }

    fn to_xyz(&self) -> (c: Xyz<Wp>) {
        let white: Xyz<Wp> = Wp::xyz();
        proof {
            Wp::lemma_white_is_positive();
        }
        let py: i128 = (self.l.raw() as i128) + 16 * 0x1_0000_0000;
        let px: i128 = 29 * (self.a.raw() as i128) + 125 * py;
        let pz: i128 = 50 * py - 29 * (self.b.raw() as i128);
        Xyz {
            x: inverse_response(px, 14500 * 0x1_0000_0000, white.x),
            y: inverse_response(py, 116 * 0x1_0000_0000, white.y),
            z: inverse_response(pz, 5800 * 0x1_0000_0000, white.z),
            white_point: Wp::tag(),
        }
    }
}

} // verus!
