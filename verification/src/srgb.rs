//! Display-encoded sRGB, and its place among the other colour spaces.
use crate::alpha::{Rgba, Srgba};
use crate::channel::{lemma_u8_has_room, to_channel, Channel};
use crate::color_space::{Mat3, D65};
use crate::fixed::{distance, Fixed, ONE_RAW};
use crate::primaries::{lemma_matrices_undo_each_other, linear_to_xyz, xyz_to_linear};
use crate::rgb::Rgb;
use crate::transfer::{
    lemma_decode_keeps_unit_range, lemma_decode_undoes_encode, lemma_encode_is_lipschitz,
    lemma_encode_undoes_decode, srgb_decode, srgb_encode,
};
use crate::xyz::{ToXyz, Xyz};
use vstd::prelude::*;

verus! {

/// A colour in the display-encoded sRGB space, one component per primary.
#[derive(Clone, Copy, PartialEq, Eq, Debug, Structural)]
pub struct Srgb<T> {
    pub r: T,
    pub g: T,
    pub b: T,
}

impl<T> Srgb<T> {
    /// The colour with these components.
    #[inline]
    pub fn new(r: T, g: T, b: T) -> (c: Srgb<T>)
        ensures
            c.r == r,
            c.g == g,
            c.b == b,
    {
        Srgb { r, g, b }
    }
}

/// The tristimulus values under D65 of a colour in sRGB, all raw values: each
/// component decoded to linear light, then the three taken through the matrix
/// of the sRGB primaries.
pub open spec fn srgb_to_xyz(r: int, g: int, b: int) -> (int, int, int) {
    linear_to_xyz(srgb_decode(r), srgb_decode(g), srgb_decode(b))
}

/// The sRGB components of a colour in CIE XYZ under D65, all raw values: the
/// three taken through the inverse matrix of the sRGB primaries to linear
/// light, then each component encoded.
pub open spec fn xyz_to_srgb(x: int, y: int, z: int) -> (int, int, int) {
    let linear = xyz_to_linear(x, y, z);
    (srgb_encode(linear.0), srgb_encode(linear.1), srgb_encode(linear.2))
}

/// Two linear colours that are close have tristimulus values that are close.
proof fn lemma_forward_rows_close(r: int, g: int, b: int, r2: int, g2: int, b2: int)
    requires
        distance(r2, r) <= 3119,
        distance(g2, g) <= 3119,
        distance(b2, b) <= 3119,
        0 <= r <= 0x1_0000_0000,
        0 <= g <= 0x1_0000_0000,
        0 <= b <= 0x1_0000_0000,
    ensures
        ({
            let (x, y, z) = linear_to_xyz(r, g, b);
            let (x2, y2, z2) = linear_to_xyz(r2, g2, b2);
            &&& distance(x2, x) <= 4294
            &&& distance(y2, y) <= 4294
            &&& distance(z2, z) <= 4294
        }),
{
    crate::primaries::lemma_srgb_to_xyz_raw();
    let m = crate::primaries::srgb_to_xyz_entries();
    assert(m[0] == 1771486749);
    assert(m[1] == 1535777655);
    assert(m[2] == 774973161);
    assert(m[3] == 913423150);
    assert(m[4] == 3071555311);
    assert(m[5] == 309989265);
    assert(m[6] == 83038468);
    assert(m[7] == 511925742);
    assert(m[8] == 4081525031);
}

/// A colour in sRGB with components in `[0, 1]`, taken to CIE XYZ, back to
/// sRGB and to CIE XYZ again, arrives within one millionth (4294 raw units) of
/// where it was in CIE XYZ the first time.
pub proof fn lemma_xyz_of_srgb_is_stable(r: int, g: int, b: int)
    requires
        0 <= r <= ONE_RAW,
        0 <= g <= ONE_RAW,
        0 <= b <= ONE_RAW,
    ensures
        ({
            let (x, y, z) = srgb_to_xyz(r, g, b);
            let (r2, g2, b2) = xyz_to_srgb(x, y, z);
            let (x2, y2, z2) = srgb_to_xyz(r2, g2, b2);
            &&& distance(x2, x) <= 4294
            &&& distance(y2, y) <= 4294
            &&& distance(z2, z) <= 4294
        }),
{
    let lr = srgb_decode(r);
    let lg = srgb_decode(g);
    let lb = srgb_decode(b);
    lemma_decode_keeps_unit_range(r);
    lemma_decode_keeps_unit_range(g);
    lemma_decode_keeps_unit_range(b);
    let (x, y, z) = linear_to_xyz(lr, lg, lb);
    lemma_matrices_undo_each_other(lr, lg, lb);
    let back = xyz_to_linear(x, y, z);
    lemma_decode_undoes_encode(back.0);
    lemma_decode_undoes_encode(back.1);
    lemma_decode_undoes_encode(back.2);
    lemma_forward_rows_close(
        lr,
        lg,
        lb,
        srgb_decode(srgb_encode(back.0)),
        srgb_decode(srgb_encode(back.1)),
        srgb_decode(srgb_encode(back.2)),
    );
}

/// A linear value that came back from CIE XYZ within 3079 raw units of where
/// the display value `v` had decoded to encodes to within 112000 of `v`.
proof fn lemma_encoded_near(v: int, back: int)
    requires
        0 <= v <= ONE_RAW,
        distance(back, srgb_decode(v)) <= 3079,
    ensures
        distance(srgb_encode(back), v) <= 112000,
{
    let linear = srgb_decode(v);
    lemma_decode_keeps_unit_range(v);
    lemma_encode_undoes_decode(v);
    if back <= linear {
        lemma_encode_is_lipschitz(back, linear);
    } else {
        lemma_encode_is_lipschitz(linear, back);
    }
}

/// Every 8-bit colour in sRGB survives CIE XYZ: taken there and back, it is
/// the colour that it was.
pub proof fn lemma_eight_bits_survive_xyz(r: u8, g: u8, b: u8)
    ensures
        ({
            let (x, y, z) = srgb_to_xyz(r.level(), g.level(), b.level());
            let back = xyz_to_srgb(x, y, z);
            &&& u8::from_level(back.0) == r
            &&& u8::from_level(back.1) == g
            &&& u8::from_level(back.2) == b
        }),
{
    lemma_u8_level_range(r);
    lemma_u8_level_range(g);
    lemma_u8_level_range(b);
    let (vr, vg, vb) = (r.level(), g.level(), b.level());
    let (lr, lg, lb) = (srgb_decode(vr), srgb_decode(vg), srgb_decode(vb));
    lemma_decode_keeps_unit_range(vr);
    lemma_decode_keeps_unit_range(vg);
    lemma_decode_keeps_unit_range(vb);
    let (x, y, z) = linear_to_xyz(lr, lg, lb);
    lemma_matrices_undo_each_other(lr, lg, lb);
    let linear = xyz_to_linear(x, y, z);
    lemma_encoded_near(vr, linear.0);
    lemma_encoded_near(vg, linear.1);
    lemma_encoded_near(vb, linear.2);
    lemma_u8_has_room(r, srgb_encode(linear.0));
    lemma_u8_has_room(g, srgb_encode(linear.1));
    lemma_u8_has_room(b, srgb_encode(linear.2));
}

/// The number that an 8-bit component stands for is in `[0, 1]`.
proof fn lemma_u8_level_range(n: u8)
    ensures
        0 <= n.level() <= ONE_RAW,
{
    assert(n.level() == (2 * n * 0x1_0000_0000 + 255) / 510);
}

/// Colours that have a display-encoded sRGB form.
pub trait ToSrgb {
    /// The raw values of the red, green and blue components of that form.
    spec fn srgb_levels(&self) -> (int, int, int);

    /// The colour in sRGB, in the channel `U`.
    fn to_srgb<U: Channel>(&self) -> (c: Srgb<U>)
        ensures
            c.r == U::from_level(self.srgb_levels().0),
            c.g == U::from_level(self.srgb_levels().1),
            c.b == U::from_level(self.srgb_levels().2),
    ;
}

impl<T: Channel> ToSrgb for Srgb<T> {
    open spec fn srgb_levels(&self) -> (int, int, int) {
        (self.r.level(), self.g.level(), self.b.level())
    }

    fn to_srgb<U: Channel>(&self) -> (c: Srgb<U>) {
        let r: U = to_channel(self.r);
        let g: U = to_channel(self.g);
        let b: U = to_channel(self.b);
        Srgb { r, g, b }
    }
}

impl<T: Channel> Srgb<T> {
    /// The colour in linear light, in the channel `U`: each component
    /// decoded, then brought to `U`.
    pub fn to_rgb<U: Channel>(&self) -> (c: Rgb<U>)
        ensures
            c.r == U::from_level(srgb_decode(self.r.level())),
            c.g == U::from_level(srgb_decode(self.g.level())),
            c.b == U::from_level(srgb_decode(self.b.level())),
    {
        let r: U = U::from_fixed(Srgb::to_linear(self.r.to_fixed()));
        let g: U = U::from_fixed(Srgb::to_linear(self.g.to_fixed()));
        let b: U = U::from_fixed(Srgb::to_linear(self.b.to_fixed()));
        Rgb { r, g, b }
    }

    /// The colour in linear light and fully opaque, in the channel `U`.
    pub fn to_rgba<U: Channel>(&self) -> (c: Rgba<U>)
        ensures
            c.c.r == U::from_level(srgb_decode(self.r.level())),
            c.c.g == U::from_level(srgb_decode(self.g.level())),
            c.c.b == U::from_level(srgb_decode(self.b.level())),
            c.a == U::from_level(ONE_RAW as int),
    {
        let c: Rgb<U> = self.to_rgb();
        let a: U = U::from_fixed(Fixed::one());
        Rgba { c, a }
    }

    /// The colour, fully opaque, in the channel `U`.
    pub fn to_srgba<U: Channel>(&self) -> (c: Srgba<U>)
        ensures
            c.c.r == U::from_level(self.r.level()),
            c.c.g == U::from_level(self.g.level()),
            c.c.b == U::from_level(self.b.level()),
            c.a == U::from_level(ONE_RAW as int),
    {
        let c: Srgb<U> = self.to_srgb();
        let a: U = U::from_fixed(Fixed::one());
        Srgba { c, a }
    }
}

impl<T: Channel> ToXyz for Srgb<T> {
    type WhitePoint = D65;

    /// Each component decoded to linear light, then the three taken through
    /// the matrix of the sRGB primaries.
    open spec fn xyz_levels(&self) -> (int, int, int) {
        srgb_to_xyz(self.r.level(), self.g.level(), self.b.level())
    }

    fn to_xyz(&self) -> (c: Xyz<D65>) {
        let r: Fixed = Srgb::to_linear(self.r.to_fixed());
        let g: Fixed = Srgb::to_linear(self.g.to_fixed());
        let b: Fixed = Srgb::to_linear(self.b.to_fixed());
        let m: Mat3 = Srgb::to_xyz_matrix();
        let w: [Fixed; 3] = m.apply([r, g, b]);
        Xyz { x: w[0], y: w[1], z: w[2], white_point: D65 }
    }
}

} // verus!
