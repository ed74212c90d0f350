//! Reference whites, and the matrices that take one colour space to another.
use crate::fixed::{div_floor, nearest, saturate, Fixed, MAX_RAW, ONE_RAW};
use crate::xyz::Xyz;
use vstd::prelude::*;

verus! {

/// A reference illuminant: a tag type that carries the tristimulus values of
/// what counts as white.
pub trait WhitePoint: Sized {
    /// The raw value of Xn.
    spec fn xn() -> int;

    /// The raw value of Yn.
    spec fn yn() -> int;

    /// The raw value of Zn.
    spec fn zn() -> int;

    /// White has three positive tristimulus values.
    proof fn lemma_white_is_positive()
        ensures
            0 < Self::xn() <= MAX_RAW,
            0 < Self::yn() <= MAX_RAW,
            0 < Self::zn() <= MAX_RAW,
    ;

    /// The one value of the tag.
    spec fn tag_value() -> Self;

    /// The tag itself.
    fn tag() -> (t: Self)
        ensures
            t == Self::tag_value(),
    ;

    /// White, as a colour under this illuminant.
    fn xyz() -> (w: Xyz<Self>)
        ensures
            w.x@ == Self::xn(),
            w.y@ == Self::yn(),
            w.z@ == Self::zn(),
            w.white_point == Self::tag_value(),
    ;
}

/// CIE standard illuminant D65, (0.95047, 1, 1.08883).
#[derive(Clone, Copy, PartialEq, Eq, Debug)]
pub struct D65;

/// CIE standard illuminant D50, (0.96422, 1, 0.82521).
#[derive(Clone, Copy, PartialEq, Eq, Debug)]
pub struct D50;

/// The raw tristimulus values of D65.
pub proof fn lemma_d65_raw()
    ensures
        nearest(95047, 100000) == 4082237566,
        nearest(1, 1) == 4294967296,
        nearest(108883, 100000) == 4676489241,
{
    assert(nearest(95047, 100000) == 4082237566) by (nonlinear_arith);
    assert(nearest(1, 1) == 4294967296) by (nonlinear_arith);
    assert(nearest(108883, 100000) == 4676489241) by (nonlinear_arith);
}

/// The raw tristimulus values of D50.
pub proof fn lemma_d50_raw()
    ensures
        nearest(96422, 100000) == 4141293366,
        nearest(1, 1) == 4294967296,
        nearest(82521, 100000) == 3544249962,
{
    assert(nearest(96422, 100000) == 4141293366) by (nonlinear_arith);
    assert(nearest(1, 1) == 4294967296) by (nonlinear_arith);
    assert(nearest(82521, 100000) == 3544249962) by (nonlinear_arith);
}

impl WhitePoint for D65 {
    open spec fn xn() -> int {
        nearest(95047, 100000)
    }

    open spec fn yn() -> int {
        nearest(1, 1)
    }

    open spec fn zn() -> int {
        nearest(108883, 100000)
    }

    proof fn lemma_white_is_positive() {
        lemma_d65_raw();
    }

    open spec fn tag_value() -> D65 {
        D65
    }

    fn tag() -> (t: D65) {
        D65
    }

    fn xyz() -> (w: Xyz<D65>) {
        proof {
            lemma_d65_raw();
        }
        Xyz {
            x: Fixed::from_raw(4082237566),
            y: Fixed::from_raw(4294967296),
            z: Fixed::from_raw(4676489241),
            white_point: D65,
        }
    }
}

impl WhitePoint for D50 {
    open spec fn xn() -> int {
        nearest(96422, 100000)
    }

    open spec fn yn() -> int {
        nearest(1, 1)
    }

    open spec fn zn() -> int {
        nearest(82521, 100000)
    }

    proof fn lemma_white_is_positive() {
        lemma_d50_raw();
    }

    open spec fn tag_value() -> D50 {
        D50
    }

    fn tag() -> (t: D50) {
        D50
    }

    fn xyz() -> (w: Xyz<D50>) {
        proof {
            lemma_d50_raw();
        }
        Xyz {
            x: Fixed::from_raw(4141293366),
            y: Fixed::from_raw(4294967296),
            z: Fixed::from_raw(3544249962),
            white_point: D50,
        }
    }
}

/// A 3 by 3 matrix of fixed-point numbers, row by row.
#[derive(Clone, Copy, Debug)]
pub struct Mat3(pub [Fixed; 9]);

/// The inner product of a matrix row with a vector, all raw values: rounded
/// down once, after the sum, and saturated.
pub open spec fn row_product(a: int, b: int, c: int, x: int, y: int, z: int) -> int {
    saturate((a * x + b * y + c * z) / (ONE_RAW as int))
}

impl Mat3 {
    /// The raw value of the entry in row `i` and column `j`.
    pub open spec fn entry(&self, i: int, j: int) -> int {
        self.0@[3 * i + j]@
    }

    /// The product of the matrix with the column vector `v`.
    pub fn apply(&self, v: [Fixed; 3]) -> (w: [Fixed; 3])
        ensures
            forall|i: int|
                0 <= i < 3 ==> (#[trigger] w@[i])@ == row_product(
                    self.entry(i, 0),
                    self.entry(i, 1),
                    self.entry(i, 2),
                    v@[0]@,
                    v@[1]@,
                    v@[2]@,
                ),
    {
        let w0: Fixed = Mat3::row(self.0[0], self.0[1], self.0[2], v[0], v[1], v[2]);
        let w1: Fixed = Mat3::row(self.0[3], self.0[4], self.0[5], v[0], v[1], v[2]);
        let w2: Fixed = Mat3::row(self.0[6], self.0[7], self.0[8], v[0], v[1], v[2]);
        [w0, w1, w2]
    }

    fn row(a: Fixed, b: Fixed, c: Fixed, x: Fixed, y: Fixed, z: Fixed) -> (w: Fixed)
        ensures
            w@ == row_product(a@, b@, c@, x@, y@, z@),
    {
        let ax: i128 = Mat3::wide_product(a, x);
        let by: i128 = Mat3::wide_product(b, y);
        let cz: i128 = Mat3::wide_product(c, z);
        Fixed::from_wide(div_floor(ax + by + cz, ONE_RAW as i128))
    }

    fn wide_product(a: Fixed, b: Fixed) -> (p: i128)
        ensures
            p == a@ * b@,
            -0x4000_0000_0000_0000_0000_0000 <= p <= 0x4000_0000_0000_0000_0000_0000,
    {
        let x: i128 = a.raw() as i128;
        let y: i128 = b.raw() as i128;
        assert(-0x4000_0000_0000_0000_0000_0000 <= x * y <= 0x4000_0000_0000_0000_0000_0000)
            by (nonlinear_arith)
            requires
                -0x8000_0000_0000 <= x <= 0x8000_0000_0000,
                -0x8000_0000_0000 <= y <= 0x8000_0000_0000,
        ;
        x * y
    }
}

} // verus!
