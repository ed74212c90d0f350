//! Colours with an opacity.
use crate::rgb::Rgb;
use crate::srgb::Srgb;
use vstd::prelude::*;

verus! {

/// A linear-light colour and its opacity.
#[derive(Clone, Copy, PartialEq, Eq, Debug, Structural)]
pub struct Rgba<T> {
    pub c: Rgb<T>,
    pub a: T,
}

/// A display-encoded colour and its opacity.
#[derive(Clone, Copy, PartialEq, Eq, Debug, Structural)]
pub struct Srgba<T> {
    pub c: Srgb<T>,
    pub a: T,
}

} // verus!
