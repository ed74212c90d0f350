use color::channel::{to_channel, Channel};
use color::fixed::Fixed;

const ONE: i64 = 4294967296;

#[test]
fn eight_bits_widen_by_257() {
    let cases: [u8; 6] = [0, 1, 2, 128, 254, 255];
    for n in cases {
        let wide: u16 = to_channel(n);
        assert_eq!(wide, 257 * (n as u16));
    }
}

#[test]
fn every_eight_bit_value_survives_a_wider_channel() {
    for n in 0..=255u8 {
        let wide: u16 = to_channel(n);
        let back: u8 = to_channel(wide);
        assert_eq!(back, n);
        let fixed: Fixed = to_channel(n);
        let back: u8 = to_channel(fixed);
        assert_eq!(back, n);
    }
}

#[test]
fn sixteen_bit_values_survive_fixed_point() {
    let mut n: u32 = 0;
    while n <= 65535 {
        let fixed: Fixed = to_channel(n as u16);
        let back: u16 = to_channel(fixed);
        assert_eq!(back, n as u16);
        n += 7;
    }
    let fixed: Fixed = to_channel(65535u16);
    let back: u16 = to_channel(fixed);
    assert_eq!(back, 65535);
}

#[test]
fn integer_channels_span_zero_to_one() {
    assert_eq!(0u8.to_fixed().raw(), 0);
    assert_eq!(255u8.to_fixed().raw(), ONE);
    assert_eq!(128u8.to_fixed().raw(), 2155905153);
    assert_eq!(0u16.to_fixed().raw(), 0);
    assert_eq!(65535u16.to_fixed().raw(), ONE);
    assert_eq!(32896u16.to_fixed().raw(), 2155905153);
}

#[test]
fn sixteen_bits_narrow_to_the_nearest_step() {
    let a: u8 = to_channel(32896u16);
    assert_eq!(a, 128);
    let b: u8 = to_channel(32767u16);
    assert_eq!(b, 127);
    let c: u8 = to_channel(32768u16);
    assert_eq!(c, 128);
    let d: u8 = to_channel(128u16);
    assert_eq!(d, 0);
    let e: u8 = to_channel(129u16);
    assert_eq!(e, 1);
}

#[test]
fn narrowing_clamps_rather_than_wraps() {
    assert_eq!(u8::from_fixed(Fixed::from_ratio(3, 2)), 255);
    assert_eq!(u8::from_fixed(Fixed::from_ratio(-1, 2)), 0);
    assert_eq!(u8::from_fixed(Fixed::from_ratio(1000, 1)), 255);
    assert_eq!(u16::from_fixed(Fixed::from_ratio(3, 2)), 65535);
    assert_eq!(u16::from_fixed(Fixed::from_ratio(-1, 2)), 0);
    assert_eq!(u8::from_fixed(Fixed::from_raw(ONE - 1)), 255);
    assert_eq!(u8::from_fixed(Fixed::from_raw(1)), 0);
}

#[test]
fn fixed_point_rounds_halves_up() {
    // 0.5 of 255 is 127.5
    assert_eq!(u8::from_fixed(Fixed::from_ratio(1, 2)), 128);
    assert_eq!(u8::from_fixed(Fixed::from_raw(ONE / 2 - 1)), 127);
    assert_eq!(u16::from_fixed(Fixed::from_ratio(1, 2)), 32768);
}

#[test]
fn fixed_point_passes_through_unchanged() {
    let x = Fixed::from_ratio(-12345, 678);
    let y: Fixed = to_channel(x);
    assert_eq!(y, x);
    assert_eq!(Fixed::from_fixed(x), x);
    assert_eq!(x.to_fixed(), x);
}
