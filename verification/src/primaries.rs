//! The sRGB primaries, and the matrices between linear sRGB and CIE XYZ that
//! follow from them.
use crate::color_space::{row_product, Mat3, D50};
use crate::fixed::{distance, nearest, Fixed};
use crate::srgb::Srgb;
use crate::yxy::Yxy;
use vstd::prelude::*;

verus! {

/// The matrix from linear sRGB to CIE XYZ under D65, row by row, as raw values.
pub open spec fn srgb_to_xyz_entries() -> Seq<int> {
    seq![
        nearest(4124564, 10000000),
        nearest(3575761, 10000000),
        nearest(1804375, 10000000),
        nearest(2126729, 10000000),
        nearest(7151522, 10000000),
        nearest(721750, 10000000),
        nearest(193339, 10000000),
        nearest(1191920, 10000000),
        nearest(9503041, 10000000),
    ]
}

/// The matrix from CIE XYZ under D65 to linear sRGB, row by row, as raw values.
pub open spec fn xyz_to_srgb_entries() -> Seq<int> {
    seq![
        nearest(32404542, 10000000),
        nearest(-15371385, 10000000),
        nearest(-4985314, 10000000),
        nearest(-9692660, 10000000),
        nearest(18760108, 10000000),
        nearest(415560, 10000000),
        nearest(556434, 10000000),
        nearest(-2040259, 10000000),
        nearest(10572252, 10000000),
    ]
}

/// The tristimulus values of a colour in linear sRGB, all raw values.
pub open spec fn linear_to_xyz(r: int, g: int, b: int) -> (int, int, int) {
    let m = srgb_to_xyz_entries();
    (
        row_product(m[0], m[1], m[2], r, g, b),
        row_product(m[3], m[4], m[5], r, g, b),
        row_product(m[6], m[7], m[8], r, g, b),
    )
}

/// The linear sRGB components of a colour in CIE XYZ under D65, all raw values.
pub open spec fn xyz_to_linear(x: int, y: int, z: int) -> (int, int, int) {
    let n = xyz_to_srgb_entries();
    (
        row_product(n[0], n[1], n[2], x, y, z),
        row_product(n[3], n[4], n[5], x, y, z),
        row_product(n[6], n[7], n[8], x, y, z),
    )
}

/// The two matrices of the sRGB primaries undo each other: a linear colour
/// taken to CIE XYZ and back comes out within seven raw units, and one part
/// in 2^22 of its size, of where it started.
pub proof fn lemma_matrices_undo_each_other(r: int, g: int, b: int)
    requires
        -0x2000_0000_0000 <= r <= 0x2000_0000_0000,
        -0x2000_0000_0000 <= g <= 0x2000_0000_0000,
        -0x2000_0000_0000 <= b <= 0x2000_0000_0000,
    ensures
        ({
            let (x, y, z) = linear_to_xyz(r, g, b);
            let (r2, g2, b2) = xyz_to_linear(x, y, z);
            let slack = 7 * 0x40_0000 + distance(r, 0) + distance(g, 0) + distance(b, 0);
            &&& 0x40_0000 * distance(r2, r) <= slack
            &&& 0x40_0000 * distance(g2, g) <= slack
            &&& 0x40_0000 * distance(b2, b) <= slack
        }),
{
    lemma_srgb_to_xyz_raw();
    lemma_xyz_to_srgb_raw();
    let (x, y, z) = linear_to_xyz(r, g, b);
    // what rounding down took from each of x, y, z, in 2^-32 of a raw unit
    let ex = 1771486749 * r + 1535777655 * g + 774973161 * b - 4294967296 * x;
    let ey = 913423150 * r + 3071555311 * g + 309989265 * b - 4294967296 * y;
    let ez = 83038468 * r + 511925742 * g + 4081525031 * b - 4294967296 * z;
    assert(0 <= ex < 4294967296 && 0 <= ey < 4294967296 && 0 <= ez < 4294967296);
    let (ar, ag, ab) = (distance(r, 0), distance(g, 0), distance(b, 0));
    // row 1 of the inverse matrix times the forward one, less the unit row
    lemma_row_comes_back(
        r,
        13917644813 * x + (-6601959587) * y + (-2141176059) * z,
        (-3411979345341) * r,
        738818626180 * g,
        913885597509 * b,
        13917644813 * ex + (-6601959587) * ey + (-2141176059) * ez,
        ar,
        ag,
        ab,
    );
    // row 2 of the inverse matrix times the forward one, less the unit row
    lemma_row_comes_back(
        g,
        (-4162965771) * x + 8057405033 * y + 178481661 * z,
        2429897180819 * r,
        695388899104 * g,
        (-311753744895) * b,
        (-4162965771) * ex + 8057405033 * ey + 178481661 * ez,
        ar,
        ag,
        ab,
    );
    // row 3 of the inverse matrix times the forward one, less the unit row
    lemma_row_comes_back(
        b,
        238986583 * x + (-876284568) * y + 4540747659 * z,
        (-316247714121) * r,
        (-650203199805) * g,
        534452537156 * b,
        238986583 * ex + (-876284568) * ey + 4540747659 * ez,
        ar,
        ag,
        ab,
    );
}

/// One component on its way back. `sum` is the product of a row of the inverse
/// matrix with the tristimulus values; its distance to the component `v`
/// comes from what the product of the two matrices adds for each of the three
/// components, each at most one part in 2^22 of that component, and from
/// `rounding`, what rounding down the tristimulus values took, less than six
/// raw units.
proof fn lemma_row_comes_back(
    v: int,
    sum: int,
    t0: int,
    t1: int,
    t2: int,
    rounding: int,
    a0: int,
    a1: int,
    a2: int,
)
    requires
        4294967296 * sum == 18446744073709551616 * v + t0 + t1 + t2 - rounding,
        -4398046511104 * a0 <= t0 <= 4398046511104 * a0,
        -4398046511104 * a1 <= t1 <= 4398046511104 * a1,
        -4398046511104 * a2 <= t2 <= 4398046511104 * a2,
        -6 * 18446744073709551616 <= rounding <= 6 * 18446744073709551616,
    ensures
        0x40_0000 * distance(sum / 4294967296, v) <= 7 * 0x40_0000 + a0 + a1 + a2,
{
    let q = sum / 4294967296;
    let d = q - v;
    assert(4294967296 * q <= sum < 4294967296 * q + 4294967296);
    let t = 4294967296 * sum - 18446744073709551616 * v;
    assert(18446744073709551616 * d <= t < 18446744073709551616 * d + 18446744073709551616);
    assert(4398046511104 * (4194304 * d) == 18446744073709551616 * d);
    assert(4194304 * d <= 7 * 4194304 + a0 + a1 + a2);
    assert(-4194304 * d <= 7 * 4194304 + a0 + a1 + a2);
}

/// The entries of the matrix from linear sRGB to CIE XYZ, written out.
pub proof fn lemma_srgb_to_xyz_raw()
    ensures
        srgb_to_xyz_entries()[0] == 1771486749,
        srgb_to_xyz_entries()[1] == 1535777655,
        srgb_to_xyz_entries()[2] == 774973161,
        srgb_to_xyz_entries()[3] == 913423150,
        srgb_to_xyz_entries()[4] == 3071555311,
        srgb_to_xyz_entries()[5] == 309989265,
        srgb_to_xyz_entries()[6] == 83038468,
        srgb_to_xyz_entries()[7] == 511925742,
        srgb_to_xyz_entries()[8] == 4081525031,
{
        assert(nearest(4124564, 10000000) == 1771486749) by (nonlinear_arith);
        assert(nearest(3575761, 10000000) == 1535777655) by (nonlinear_arith);
        assert(nearest(1804375, 10000000) == 774973161) by (nonlinear_arith);
        assert(nearest(2126729, 10000000) == 913423150) by (nonlinear_arith);
        assert(nearest(7151522, 10000000) == 3071555311) by (nonlinear_arith);
        assert(nearest(721750, 10000000) == 309989265) by (nonlinear_arith);
        assert(nearest(193339, 10000000) == 83038468) by (nonlinear_arith);
        assert(nearest(1191920, 10000000) == 511925742) by (nonlinear_arith);
        assert(nearest(9503041, 10000000) == 4081525031) by (nonlinear_arith);
}

/// The entries of the matrix from CIE XYZ to linear sRGB, written out.
pub proof fn lemma_xyz_to_srgb_raw()
    ensures
        xyz_to_srgb_entries()[0] == 13917644813,
        xyz_to_srgb_entries()[1] == -6601959587,
        xyz_to_srgb_entries()[2] == -2141176059,
        xyz_to_srgb_entries()[3] == -4162965771,
        xyz_to_srgb_entries()[4] == 8057405033,
        xyz_to_srgb_entries()[5] == 178481661,
        xyz_to_srgb_entries()[6] == 238986583,
        xyz_to_srgb_entries()[7] == -876284568,
        xyz_to_srgb_entries()[8] == 4540747659,
{
        assert(nearest(32404542, 10000000) == 13917644813) by (nonlinear_arith);
        assert(nearest(-15371385, 10000000) == -6601959587) by (nonlinear_arith);
        assert(nearest(-4985314, 10000000) == -2141176059) by (nonlinear_arith);
        assert(nearest(-9692660, 10000000) == -4162965771) by (nonlinear_arith);
        assert(nearest(18760108, 10000000) == 8057405033) by (nonlinear_arith);
        assert(nearest(415560, 10000000) == 178481661) by (nonlinear_arith);
        assert(nearest(556434, 10000000) == 238986583) by (nonlinear_arith);
        assert(nearest(-2040259, 10000000) == -876284568) by (nonlinear_arith);
        assert(nearest(10572252, 10000000) == 4540747659) by (nonlinear_arith);
}

/// The chromaticities and luminances of the three primaries, written out.
proof fn lemma_primaries_raw()
    ensures
        nearest(64, 100) == 2748779069,
        nearest(33, 100) == 1417339208,
        nearest(212656, 1000000) == 913350565,
        nearest(30, 100) == 1288490189,
        nearest(60, 100) == 2576980378,
        nearest(715158, 1000000) == 3071580221,
        nearest(15, 100) == 644245094,
        nearest(6, 100) == 257698038,
        nearest(72186, 1000000) == 310036509,
{
    assert(nearest(64, 100) == 2748779069) by (nonlinear_arith);
    assert(nearest(33, 100) == 1417339208) by (nonlinear_arith);
    assert(nearest(212656, 1000000) == 913350565) by (nonlinear_arith);
    assert(nearest(30, 100) == 1288490189) by (nonlinear_arith);
    assert(nearest(60, 100) == 2576980378) by (nonlinear_arith);
    assert(nearest(715158, 1000000) == 3071580221) by (nonlinear_arith);
    assert(nearest(15, 100) == 644245094) by (nonlinear_arith);
    assert(nearest(6, 100) == 257698038) by (nonlinear_arith);
    assert(nearest(72186, 1000000) == 310036509) by (nonlinear_arith);
}

impl Srgb<Fixed> {
    /// The matrix that takes linear sRGB to CIE XYZ under D65.
    pub fn to_xyz_matrix() -> (m: Mat3)
        ensures
            forall|k: int| 0 <= k < 9 ==> (#[trigger] m.0@[k])@ == srgb_to_xyz_entries()[k],
    {
        proof {
            lemma_srgb_to_xyz_raw();
        }
        Mat3(
            [
                Fixed::from_raw(1771486749),
                Fixed::from_raw(1535777655),
                Fixed::from_raw(774973161),
                Fixed::from_raw(913423150),
                Fixed::from_raw(3071555311),
                Fixed::from_raw(309989265),
                Fixed::from_raw(83038468),
                Fixed::from_raw(511925742),
                Fixed::from_raw(4081525031),
            ],
        )
    }

    /// The matrix that takes CIE XYZ under D65 to linear sRGB.
    pub fn to_rgb_matrix() -> (m: Mat3)
        ensures
            forall|k: int| 0 <= k < 9 ==> (#[trigger] m.0@[k])@ == xyz_to_srgb_entries()[k],
    {
        proof {
            lemma_xyz_to_srgb_raw();
        }
        Mat3(
            [
                Fixed::from_raw(13917644813),
                Fixed::from_raw(-6601959587),
                Fixed::from_raw(-2141176059),
                Fixed::from_raw(-4162965771),
                Fixed::from_raw(8057405033),
                Fixed::from_raw(178481661),
                Fixed::from_raw(238986583),
                Fixed::from_raw(-876284568),
                Fixed::from_raw(4540747659),
            ],
        )
    }

    /// The red primary: chromaticity (0.64, 0.33), luminance 0.212656.
    pub fn red() -> (p: Yxy<D50>)
        ensures
            p.x@ == nearest(64, 100),
            p.y@ == nearest(33, 100),
            p.luma@ == nearest(212656, 1000000),
            p.white_point == D50,
    {
        proof {
            lemma_primaries_raw();
        }
        Yxy {
            x: Fixed::from_raw(2748779069),
            y: Fixed::from_raw(1417339208),
            luma: Fixed::from_raw(913350565),
            white_point: D50,
        }
    }

    /// The green primary: chromaticity (0.30, 0.60), luminance 0.715158.
    pub fn green() -> (p: Yxy<D50>)
        ensures
            p.x@ == nearest(30, 100),
            p.y@ == nearest(60, 100),
            p.luma@ == nearest(715158, 1000000),
            p.white_point == D50,
    {
        proof {
            lemma_primaries_raw();
        }
        Yxy {
            x: Fixed::from_raw(1288490189),
            y: Fixed::from_raw(2576980378),
            luma: Fixed::from_raw(3071580221),
            white_point: D50,
        }
    }

    /// The blue primary: chromaticity (0.15, 0.06), luminance 0.072186.
    pub fn blue() -> (p: Yxy<D50>)
        ensures
            p.x@ == nearest(15, 100),
            p.y@ == nearest(6, 100),
            p.luma@ == nearest(72186, 1000000),
            p.white_point == D50,
    {
        proof {
            lemma_primaries_raw();
        }
        Yxy {
            x: Fixed::from_raw(644245094),
            y: Fixed::from_raw(257698038),
            luma: Fixed::from_raw(310036509),
            white_point: D50,
        }
    }
}

} // verus!
