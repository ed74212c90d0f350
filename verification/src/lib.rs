//! Colour spaces and the conversions between them, computed in fixed point and
//! rounded where the formula says, never where the arithmetic happens to.
//!
//! A colour component is a [`channel::Channel`]: an 8-bit or 16-bit step of
//! `[0, 1]`, or a [`fixed::Fixed`] number with 32 fractional bits. The
//! conversions run on `Fixed`. Each result is the exact value of its formula,
//! roots and powers included, rounded down to a multiple of 2^-32 and
//! saturated at the ends of the range; the contracts say which formula, and
//! the laws beside them say how far a colour can stray on a round trip.
//!
//! | module | holds |
//! |---|---|
//! | [`fixed`], [`channel`] | the numbers |
//! | [`bignat`], [`power`], [`root`] | exact roots of ratios |
//! | [`color_space`], [`primaries`], [`transfer`] | whites, matrices, the sRGB curve |
//! | [`srgb`], [`rgb`], [`alpha`], [`xyz`], [`yxy`], [`lab`] | the colour spaces |
//! | [`lab_laws`] | why CIE XYZ survives CIE L*a*b* |

pub mod alpha;
pub mod bignat;
pub mod channel;
pub mod color_space;
pub mod fixed;
pub mod lab;
pub mod lab_laws;
pub mod power;
pub mod primaries;
pub mod rgb;
pub mod root;
pub mod srgb;
pub mod transfer;
pub mod xyz;
pub mod yxy;
