//! Linear-light RGB.
use crate::channel::{to_channel, Channel};
use crate::color_space::{Mat3, D65};
use crate::fixed::{saturate, Fixed, ONE_RAW};
use crate::primaries::linear_to_xyz;
use crate::srgb::{Srgb, ToSrgb};
use crate::transfer::srgb_encode;
use crate::xyz::{ToXyz, Xyz};
use vstd::prelude::*;

verus! {

/// A colour in linear light, one component per sRGB primary.
#[derive(Clone, Copy, PartialEq, Eq, Debug, Structural)]
pub struct Rgb<T> {
    pub r: T,
    pub g: T,
    pub b: T,
}

impl<T> Rgb<T> {
    /// The colour with these components.
    #[inline]
    pub fn new(r: T, g: T, b: T) -> (c: Rgb<T>)
        ensures
            c.r == r,
            c.g == g,
            c.b == b,
    {
        Rgb { r, g, b }
    }
}

impl<T: Channel> Rgb<T> {
    /// The same colour in the channel `U`.
    pub fn to_rgb<U: Channel>(&self) -> (c: Rgb<U>)
        ensures
            c.r == U::from_level(self.r.level()),
            c.g == U::from_level(self.g.level()),
            c.b == U::from_level(self.b.level()),
    {
        let r: U = to_channel(self.r);
        let g: U = to_channel(self.g);
        let b: U = to_channel(self.b);
        Rgb { r, g, b }
    }
}

impl<T: Channel> ToSrgb for Rgb<T> {
    /// Each component encoded for display.
    open spec fn srgb_levels(&self) -> (int, int, int) {
        (srgb_encode(self.r.level()), srgb_encode(self.g.level()), srgb_encode(self.b.level()))
    }

    fn to_srgb<U: Channel>(&self) -> (c: Srgb<U>) {
        let r: U = U::from_fixed(Srgb::from_linear(self.r.to_fixed()));
        let g: U = U::from_fixed(Srgb::from_linear(self.g.to_fixed()));
        let b: U = U::from_fixed(Srgb::from_linear(self.b.to_fixed()));
        Srgb { r, g, b }
    }
}

impl<T: Channel> ToXyz for Rgb<T> {
    type WhitePoint = D65;

    /// The three components taken through the matrix of the sRGB primaries.
    open spec fn xyz_levels(&self) -> (int, int, int) {
        linear_to_xyz(self.r.level(), self.g.level(), self.b.level())
    }

    fn to_xyz(&self) -> (c: Xyz<D65>) {
        let m: Mat3 = Srgb::to_xyz_matrix();
        let w: [Fixed; 3] = m.apply([self.r.to_fixed(), self.g.to_fixed(), self.b.to_fixed()]);
        Xyz { x: w[0], y: w[1], z: w[2], white_point: D65 }
    }
}

impl Rgb<Fixed> {
    /// The component-wise sum of two colours.
    pub fn add(self, other: Rgb<Fixed>) -> (c: Rgb<Fixed>)
        ensures
            c.r@ == saturate(self.r@ + other.r@),
            c.g@ == saturate(self.g@ + other.g@),
            c.b@ == saturate(self.b@ + other.b@),
    {
        Rgb { r: self.r.add(other.r), g: self.g.add(other.g), b: self.b.add(other.b) }
    }

    /// The colour with every component multiplied by `factor`.
    pub fn mul(self, factor: Fixed) -> (c: Rgb<Fixed>)
        ensures
            c.r@ == saturate((self.r@ * factor@) / (ONE_RAW as int)),
            c.g@ == saturate((self.g@ * factor@) / (ONE_RAW as int)),
            c.b@ == saturate((self.b@ * factor@) / (ONE_RAW as int)),
    {
        Rgb { r: self.r.mul(factor), g: self.g.mul(factor), b: self.b.mul(factor) }
    }
}

} // verus!
