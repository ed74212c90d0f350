use color::alpha::{Rgba, Srgba};
use color::color_space::{Mat3, WhitePoint, D50, D65};
use color::fixed::Fixed;
use color::rgb::Rgb;
use color::srgb::{Srgb, ToSrgb};
use color::xyz::{ToXyz, Xyz};
use color::yxy::Yxy;

const ONE: i64 = 4294967296;

fn raw(units: i64) -> Fixed {
    Fixed::from_raw(units)
}

fn as_f64(x: Fixed) -> f64 {
    x.raw() as f64 / 4294967296.0
}

fn close(x: Fixed, want: f64, tolerance: f64) -> bool {
    (as_f64(x) - want).abs() <= tolerance
}

#[test]
fn new_keeps_the_components() {
    let c: Srgb<u8> = Srgb::new(1, 2, 3);
    assert_eq!((c.r, c.g, c.b), (1, 2, 3));
    assert_eq!(c, Srgb { r: 1, g: 2, b: 3 });
    let l: Rgb<u16> = Rgb::new(4, 5, 6);
    assert_eq!((l.r, l.g, l.b), (4, 5, 6));
    let x: Xyz<D50> = Xyz::new(Fixed::one(), Fixed::zero(), Fixed::from_raw(7));
    assert_eq!((x.x.raw(), x.y.raw(), x.z.raw()), (ONE, 0, 7));
    assert_eq!(x.white_point, D50);
    let y: Yxy<D65> = Yxy::new(Fixed::one(), Fixed::zero(), Fixed::from_raw(7));
    assert_eq!((y.x.raw(), y.y.raw(), y.luma.raw()), (ONE, 0, 7));
    assert_eq!(y.white_point, D65);
}

#[test]
fn the_white_points() {
    let d65 = D65::xyz();
    assert_eq!((d65.x.raw(), d65.y.raw(), d65.z.raw()), (4082237566, ONE, 4676489241));
    assert!(close(d65.x, 0.95047, 1e-9) && close(d65.z, 1.08883, 1e-9));
    let d50 = D50::xyz();
    assert_eq!((d50.x.raw(), d50.y.raw(), d50.z.raw()), (4141293366, ONE, 3544249962));
    assert!(close(d50.x, 0.96422, 1e-9) && close(d50.z, 0.82521, 1e-9));
    assert_eq!(D65::tag(), D65);
    assert_eq!(D50::tag(), D50);
}

#[test]
fn the_primaries() {
    let r = Srgb::red();
    assert!(close(r.x, 0.64, 1e-9) && close(r.y, 0.33, 1e-9) && close(r.luma, 0.212656, 1e-9));
    assert_eq!((r.x.raw(), r.y.raw(), r.luma.raw()), (2748779069, 1417339208, 913350565));
    let g = Srgb::green();
    assert!(close(g.x, 0.30, 1e-9) && close(g.y, 0.60, 1e-9) && close(g.luma, 0.715158, 1e-9));
    let b = Srgb::blue();
    assert!(close(b.x, 0.15, 1e-9) && close(b.y, 0.06, 1e-9) && close(b.luma, 0.072186, 1e-9));
    assert_eq!(r.white_point, D50);
}

#[test]
fn the_matrices() {
    let m = Srgb::to_xyz_matrix();
    let want = [
        0.4124564, 0.3575761, 0.1804375, 0.2126729, 0.7151522, 0.0721750, 0.0193339, 0.1191920,
        0.9503041,
    ];
    for k in 0..9 {
        assert!(close(m.0[k], want[k], 2e-10));
    }
    assert_eq!(m.0[0].raw(), 1771486749);
    let n = Srgb::to_rgb_matrix();
    let want = [
        3.2404542, -1.5371385, -0.4985314, -0.9692660, 1.8760108, 0.0415560, 0.0556434,
        -0.2040259, 1.0572252,
    ];
    for k in 0..9 {
        assert!(close(n.0[k], want[k], 2e-10));
    }
    assert_eq!(n.0[1].raw(), -6601959587);
}

#[test]
fn a_matrix_times_a_vector() {
    let m = Mat3([
        Fixed::from_ratio(1, 1),
        Fixed::from_ratio(2, 1),
        Fixed::from_ratio(3, 1),
        Fixed::from_ratio(-1, 2),
        Fixed::zero(),
        Fixed::from_ratio(1, 4),
        Fixed::from_raw(1),
        Fixed::from_raw(1),
        Fixed::from_raw(1),
    ]);
    let w = m.apply([Fixed::from_ratio(1, 1), Fixed::from_ratio(1, 2), Fixed::from_ratio(-2, 1)]);
    assert_eq!(w[0].raw(), -4 * ONE);
    assert_eq!(w[1].raw(), -ONE);
    // 1 + 0.5 - 2 raw units, rounded down
    assert_eq!(w[2].raw(), -1);
    let big = Fixed::from_ratio(30000, 1);
    let s = m.apply([big, big, big]);
    assert_eq!(s[0].raw(), 0x7FFF_FFFF_FFFF);
}

#[test]
fn the_matrices_undo_each_other() {
    let m = Srgb::to_xyz_matrix();
    let n = Srgb::to_rgb_matrix();
    let steps = [0, 1, 77, 1000, ONE / 3, ONE / 2, ONE - 1, ONE];
    for r in steps {
        for g in steps {
            for b in steps {
                let v = [Fixed::from_raw(r), Fixed::from_raw(g), Fixed::from_raw(b)];
                let back = n.apply(m.apply(v));
                let slack = 7 + (r + g + b) / 0x40_0000 + 1;
                assert!((back[0].raw() - r).abs() <= slack);
                assert!((back[1].raw() - g).abs() <= slack);
                assert!((back[2].raw() - b).abs() <= slack);
                assert!(close(back[0], as_f64(v[0]), 1e-6));
            }
        }
    }
    let v = [Fixed::from_ratio(-700, 1), Fixed::from_ratio(5000, 1), Fixed::from_ratio(3, 7)];
    let back = n.apply(m.apply(v));
    for k in 0..3 {
        assert!((back[k].raw() - v[k].raw()).abs() <= 7 + (5701 * ONE) / 0x40_0000);
    }
}

#[test]
fn white_in_xyz() {
    let white: Srgb<u8> = Srgb::new(255, 255, 255);
    let xyz = white.to_xyz();
    assert_eq!((xyz.x.raw(), xyz.y.raw(), xyz.z.raw()), (4082237565, 4294967726, 4676489241));
    assert!(close(xyz.y, 1.0, 1e-6));
    assert!(close(xyz.x, 0.95047, 1e-6));
    assert!(close(xyz.z, 1.08883, 1e-6));
    let lab = xyz.to_lab();
    assert!(close(lab.l, 100.0, 1e-4));
    assert!(close(lab.a, 0.0, 1e-4));
    assert!(close(lab.b, 0.0, 1e-4));
}

#[test]
fn black_in_xyz() {
    let black: Srgb<u8> = Srgb::new(0, 0, 0);
    let xyz = black.to_xyz();
    assert_eq!((xyz.x.raw(), xyz.y.raw(), xyz.z.raw()), (0, 0, 0));
    let lab = xyz.to_lab();
    assert_eq!((lab.l.raw(), lab.a.raw(), lab.b.raw()), (0, 0, 0));
}

#[test]
fn a_colour_in_xyz() {
    let c: Srgb<u8> = Srgb::new(12, 200, 77);
    let xyz = c.to_xyz();
    assert_eq!((xyz.x.raw(), xyz.y.raw(), xyz.z.raw()), (951061541, 1800433885, 598888122));
    // the same through floating point
    let lin = |n: u8| -> f64 {
        let v = n as f64 / 255.0;
        if v <= 0.04045 {
            v / 12.92
        } else {
            ((v + 0.055) / 1.055).powf(2.4)
        }
    };
    let (r, g, b) = (lin(12), lin(200), lin(77));
    assert!(close(xyz.x, 0.4124564 * r + 0.3575761 * g + 0.1804375 * b, 1e-9));
    assert!(close(xyz.y, 0.2126729 * r + 0.7151522 * g + 0.0721750 * b, 1e-9));
    assert!(close(xyz.z, 0.0193339 * r + 0.1191920 * g + 0.9503041 * b, 1e-9));
}

#[test]
fn xyz_back_to_srgb() {
    for (r, g, b) in [(12u8, 200u8, 77u8), (0, 0, 0), (255, 255, 255), (1, 2, 3), (254, 128, 9)] {
        let c: Srgb<u8> = Srgb::new(r, g, b);
        let back: Srgb<u8> = c.to_xyz().to_rgb();
        assert_eq!(back, c);
        let wide: Srgb<u16> = c.to_xyz().to_rgb();
        let narrow: Srgb<u8> = wide.to_srgb();
        assert_eq!(narrow, c);
    }
}

#[test]
fn the_white_point_is_white_in_srgb() {
    let c: Srgb<Fixed> = D65::xyz().to_rgb();
    assert_eq!((c.r.raw(), c.g.raw(), c.b.raw()), (4294967407, 4294967228, 4294967290));
    let c: Srgb<u8> = D65::xyz().to_rgb();
    assert_eq!(c, Srgb::new(255, 255, 255));
}

#[test]
fn xyz_of_srgb_is_stable() {
    let steps = [0, 1, 50000, 173731427, 173731428, ONE / 3, ONE / 2, ONE - 1, ONE];
    for r in steps {
        for g in steps {
            for b in steps {
                let c: Srgb<Fixed> =
                    Srgb::new(Fixed::from_raw(r), Fixed::from_raw(g), Fixed::from_raw(b));
                let first = c.to_xyz();
                let again: Srgb<Fixed> = first.to_rgb();
                let second = again.to_xyz();
                assert!((second.x.raw() - first.x.raw()).abs() <= 4294);
                assert!((second.y.raw() - first.y.raw()).abs() <= 4294);
                assert!((second.z.raw() - first.z.raw()).abs() <= 4294);
            }
        }
    }
}

#[test]
fn srgb_between_channels() {
    let c: Srgb<u8> = Srgb::new(0, 128, 255);
    let wide: Srgb<u16> = c.to_srgb();
    assert_eq!(wide, Srgb::new(0, 32896, 65535));
    let fixed: Srgb<Fixed> = c.to_srgb();
    assert_eq!((fixed.r.raw(), fixed.g.raw(), fixed.b.raw()), (0, 2155905153, ONE));
    let back: Srgb<u8> = fixed.to_srgb();
    assert_eq!(back, c);
    let same: Srgb<u8> = c.to_srgb();
    assert_eq!(same, c);
}

#[test]
fn srgb_to_linear_light() {
    let c: Srgb<u8> = Srgb::new(0, 128, 255);
    let lin: Rgb<Fixed> = c.to_rgb();
    assert_eq!((lin.r.raw(), lin.g.raw(), lin.b.raw()), (0, 927113788, ONE));
    let lin8: Rgb<u8> = c.to_rgb();
    assert_eq!(lin8, Rgb::new(0, 55, 255));
}

#[test]
fn opacity_is_full() {
    let c: Srgb<u8> = Srgb::new(0, 128, 255);
    let a: Rgba<u8> = c.to_rgba();
    assert_eq!(a, Rgba { c: Rgb::new(0, 55, 255), a: 255 });
    let a16: Rgba<u16> = c.to_rgba();
    assert_eq!(a16.a, 65535);
    let af: Rgba<Fixed> = c.to_rgba();
    assert_eq!(af.a.raw(), ONE);
    assert_eq!(af.c.g.raw(), 927113788);
    let s: Srgba<u8> = c.to_srgba();
    assert_eq!(s, Srgba { c, a: 255 });
    let s16: Srgba<u16> = c.to_srgba();
    assert_eq!(s16, Srgba { c: Srgb::new(0, 32896, 65535), a: 65535 });
}

#[test]
fn chromaticity_of_a_colour() {
    let xyz: Xyz<D65> =
        Xyz::new(raw(951061541), raw(1800433885), raw(598888122));
    let yxy = xyz.to_yxy();
    assert_eq!((yxy.x.raw(), yxy.y.raw(), yxy.luma.raw()), (1219197192, 2308035645, 1800433885));
    let sum = as_f64(xyz.x) + as_f64(xyz.y) + as_f64(xyz.z);
    assert!(close(yxy.x, as_f64(xyz.x) / sum, 1e-9));
    assert!(close(yxy.y, as_f64(xyz.y) / sum, 1e-9));
}

#[test]
fn chromaticity_of_black_is_zero() {
    let black: Xyz<D65> = Xyz::new(Fixed::zero(), Fixed::zero(), Fixed::zero());
    let yxy = black.to_yxy();
    assert_eq!((yxy.x.raw(), yxy.y.raw(), yxy.luma.raw()), (0, 0, 0));
    // a sum of zero without black: still zero, and the luminance kept
    let odd: Xyz<D65> = Xyz::new(Fixed::from_raw(5), Fixed::from_raw(-2), Fixed::from_raw(-3));
    let yxy = odd.to_yxy();
    assert_eq!((yxy.x.raw(), yxy.y.raw(), yxy.luma.raw()), (0, 0, -2));
}

#[test]
fn chromaticity_with_a_negative_sum_rounds_down() {
    let odd: Xyz<D65> = Xyz::new(Fixed::from_raw(1), Fixed::from_raw(-2), Fixed::from_raw(-2));
    let yxy = odd.to_yxy();
    // 1 / -3 and -2 / -3
    assert_eq!(yxy.x.raw(), -1431655766);
    assert_eq!(yxy.y.raw(), 2863311530);
}

#[test]
fn chromaticity_back_to_xyz() {
    let yxy: Yxy<D65> =
        Yxy::new(Fixed::from_ratio(3, 10), Fixed::from_ratio(6, 10), Fixed::from_ratio(1, 2));
    let xyz = yxy.to_xyz();
    assert!(close(xyz.x, 0.25, 1e-9));
    assert_eq!(xyz.y, yxy.luma);
    assert!(close(xyz.z, 0.1 * 0.5 / 0.6, 1e-9));
    let xyz0: Xyz<D65> =
        Xyz::new(Fixed::from_ratio(2, 10), Fixed::from_ratio(3, 10), Fixed::from_ratio(4, 10));
    let back = xyz0.to_yxy().to_xyz();
    assert!((back.x.raw() - xyz0.x.raw()).abs() <= 2);
    assert_eq!(back.y, xyz0.y);
    assert!((back.z.raw() - xyz0.z.raw()).abs() <= 2);
}

#[test]
fn chromaticity_without_a_y_gives_black() {
    let yxy: Yxy<D65> = Yxy::new(Fixed::from_ratio(3, 10), Fixed::zero(), Fixed::from_ratio(1, 2));
    let xyz = yxy.to_xyz();
    assert_eq!((xyz.x.raw(), xyz.y.raw(), xyz.z.raw()), (0, 0, 0));
}

#[test]
fn xyz_arithmetic() {
    let half = Fixed::from_ratio(1, 2);
    let a: Xyz<D65> = Xyz::new(half, Fixed::from_ratio(1, 4), Fixed::from_ratio(-1, 8));
    let b: Xyz<D65> = Xyz::new(half, half, half);
    let sum = a.add(b);
    assert_eq!((sum.x.raw(), sum.y.raw(), sum.z.raw()), (ONE, 3 * ONE / 4, 3 * ONE / 8));
    let scaled = sum.mul(Fixed::from_ratio(2, 1));
    let want = (2 * ONE, 3 * ONE / 2, 3 * ONE / 4);
    assert_eq!((scaled.x.raw(), scaled.y.raw(), scaled.z.raw()), want);
    let l = Rgb::new(Fixed::from_ratio(1, 2), Fixed::from_ratio(1, 4), Fixed::one());
    let m = l.add(l).mul(Fixed::from_ratio(1, 4));
    assert_eq!((m.r.raw(), m.g.raw(), m.b.raw()), (ONE / 4, ONE / 8, ONE / 2));
}

#[test]
fn linear_light_to_the_other_spaces() {
    let lin: Rgb<Fixed> = Rgb::new(Fixed::zero(), Fixed::from_raw(927113788), Fixed::one());
    let enc: Srgb<u8> = lin.to_srgb();
    assert_eq!(enc, Srgb::new(0, 128, 255));
    let enc: Srgb<Fixed> = lin.to_srgb();
    assert_eq!(enc.r.raw(), 0);
    assert!((enc.g.raw() - 2155905153).abs() <= 40 * 13);
    let direct = lin.to_xyz();
    let through: Srgb<u8> = Srgb::new(0, 128, 255);
    let same = through.to_xyz();
    assert_eq!((direct.x, direct.y, direct.z), (same.x, same.y, same.z));
    let narrow: Rgb<u8> = lin.to_rgb();
    assert_eq!(narrow, Rgb::new(0, 55, 255));
    let wide: Rgb<u16> = narrow.to_rgb();
    assert_eq!(wide, Rgb::new(0, 55 * 257, 65535));
    let back: Rgb<u8> = wide.to_rgb();
    assert_eq!(back, narrow);
}

#[test]
fn eight_bits_survive_xyz() {
    for n in 0..=255u8 {
        let grey: Srgb<u8> = Srgb::new(n, n, n);
        let back: Srgb<u8> = grey.to_xyz().to_rgb();
        assert_eq!(back, grey);
    }
    for r in (0..=255u8).step_by(51) {
        for g in (0..=255u8).step_by(51) {
            for b in (0..=255u8).step_by(51) {
                let c: Srgb<u8> = Srgb::new(r, g, b);
                let back: Srgb<u8> = c.to_xyz().to_rgb();
                assert_eq!(back, c);
            }
        }
    }
}
