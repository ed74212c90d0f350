use color::color_space::{WhitePoint, D50, D65};
use color::fixed::Fixed;
use color::lab::Lab;
use color::xyz::{ToXyz, Xyz};

const ONE: i64 = 4294967296;

fn raw(units: i64) -> Fixed {
    Fixed::from_raw(units)
}

fn as_f64(x: Fixed) -> f64 {
    x.raw() as f64 / 4294967296.0
}

fn close(x: Fixed, want: f64, tolerance: f64) -> bool {
    (as_f64(x) - want).abs() <= tolerance
}

fn response_f64(t: f64) -> f64 {
    if t > 216.0 / 24389.0 {
        t.cbrt()
    } else {
        24389.0 / 27.0 * t + 16.0 / 116.0
    }
}

#[test]
fn lab_of_a_colour() {
    let xyz: Xyz<D65> =
        Xyz::new(raw(951061541), raw(1800433885), raw(598888122));
    let lab = xyz.to_lab();
    let want = (304150105409, -285799482434, 209901307466);
    assert_eq!((lab.l.raw(), lab.a.raw(), lab.b.raw()), want);
    let fx = response_f64(as_f64(xyz.x) / 0.95047);
    let fy = response_f64(as_f64(xyz.y));
    let fz = response_f64(as_f64(xyz.z) / 1.08883);
    assert!(close(lab.l, 116.0 * fy - 16.0, 1e-6));
    assert!(close(lab.a, 500.0 * (fx - fy), 1e-6));
    assert!(close(lab.b, 200.0 * (fy - fz), 1e-6));
}

#[test]
fn lab_of_a_grey_under_another_white() {
    let w = D50::xyz();
    let half = Fixed::from_ratio(1, 2);
    let grey: Xyz<D50> = Xyz::new(w.x.mul(half), w.y.mul(half), w.z.mul(half));
    let lab = grey.to_lab();
    assert!(close(lab.l, 116.0 * 0.5f64.cbrt() - 16.0, 1e-6));
    assert!(close(lab.a, 0.0, 1e-6));
    assert!(close(lab.b, 0.0, 1e-6));
}

#[test]
fn lightness_on_both_sides_of_the_breakpoint() {
    // 216/24389 is between raw 38038170 and the next one
    let below: Xyz<D65> = Xyz::new(Fixed::zero(), Fixed::from_raw(38038170), Fixed::zero());
    let above: Xyz<D65> = Xyz::new(Fixed::zero(), Fixed::from_raw(38038171), Fixed::zero());
    assert!(close(below.to_lab().l, 116.0 * (8.0 + 16.0 / 116.0) - 16.0, 1e-4));
    assert!(close(above.to_lab().l, 116.0 * 6.0 / 29.0 - 16.0, 1e-6));
    let eighth: Xyz<D65> = Xyz::new(Fixed::zero(), Fixed::from_ratio(1, 8), Fixed::zero());
    let lab = eighth.to_lab();
    assert_eq!(lab.l.raw(), 42 * ONE);
    // 500 (f(0) - f(1/8)) and 200 (f(1/8) - f(0)) with f(0) = 16/116, rounded down term by term
    assert_eq!(lab.a.raw(), 296204641103 - 250 * ONE);
    assert_eq!(lab.b.raw(), 100 * ONE - 118481856441);
}

#[test]
fn lab_is_relative_to_white() {
    let lab = D65::xyz().to_lab();
    assert_eq!((lab.l.raw(), lab.a.raw(), lab.b.raw()), (100 * ONE, 0, 0));
    let lab = D50::xyz().to_lab();
    assert_eq!((lab.l.raw(), lab.a.raw(), lab.b.raw()), (100 * ONE, 0, 0));
}

#[test]
fn lab_back_to_xyz() {
    let lab: Lab<D65> =
        Lab::new(Fixed::from_ratio(50, 1), Fixed::from_ratio(10, 1), Fixed::from_ratio(-20, 1));
    let xyz = lab.to_xyz();
    assert_eq!((xyz.x.raw(), xyz.y.raw(), xyz.z.raw()), (834003513, 791075073, 1400009993));
    let fy: f64 = 66.0 / 116.0;
    let fx = 10.0 / 500.0 + fy;
    let fz = fy + 20.0 / 200.0;
    assert!(close(xyz.x, fx.powi(3) * 0.95047, 1e-9));
    assert!(close(xyz.y, fy.powi(3), 1e-9));
    assert!(close(xyz.z, fz.powi(3) * 1.08883, 1e-9));
}

#[test]
fn dark_lab_back_to_xyz_is_linear() {
    let lab: Lab<D65> = Lab::new(Fixed::from_ratio(1, 1), Fixed::zero(), Fixed::zero());
    let xyz = lab.to_xyz();
    assert_eq!((xyz.x.raw(), xyz.y.raw(), xyz.z.raw()), (38959, 40989, 44630));
    let f: f64 = 17.0 / 116.0;
    let t = (f - 16.0 / 116.0) * 27.0 / 24389.0;
    assert!(close(xyz.y, t, 1e-9));
    assert!(close(xyz.x, t * 0.95047, 1e-9));
}

#[test]
fn the_lightness_that_splits_the_two_branches() {
    // f = 6/29 exactly: its cube is 216/24389, not above it
    let q = 29 * 4 * ONE;
    let l = 6 * 4 * ONE * 116 / 116 - 16 * ONE;
    let at: Lab<D65> = Lab::new(Fixed::from_raw(l), Fixed::zero(), Fixed::zero());
    assert_eq!(q, 116 * ONE);
    let y = at.to_xyz().y;
    assert!(close(y, (6.0 / 29.0 - 4.0 / 29.0) * 27.0 / 24389.0, 1e-9));
    let above: Lab<D65> = Lab::new(Fixed::from_raw(l + 1), Fixed::zero(), Fixed::zero());
    assert!(close(above.to_xyz().y, 216.0 / 24389.0, 1e-9));
}

#[test]
fn xyz_survives_lab() {
    let w = D65::xyz();
    let mut seed: u64 = 12345;
    let mut worst: i64 = 0;
    for _ in 0..2000 {
        let mut pick = |white: i64| -> i64 {
            seed = seed.wrapping_mul(6364136223846793005).wrapping_add(1442695040888963407);
            let u = (seed >> 33) as i64;
            if u % 4 == 0 {
                // up to 54/707281 of white, less a unit
                u % (54 * white / 707281)
            } else {
                // from 216/24389 of white, and a unit, up
                let low = 216 * white / 24389 + 2;
                low + u % (white - low + 1)
            }
        };
        let xyz: Xyz<D65> = Xyz::new(
            Fixed::from_raw(pick(w.x.raw())),
            Fixed::from_raw(pick(w.y.raw())),
            Fixed::from_raw(pick(w.z.raw())),
        );
        let back = xyz.to_lab().to_xyz();
        for (a, b) in [(back.x, xyz.x), (back.y, xyz.y), (back.z, xyz.z)] {
            worst = worst.max((a.raw() - b.raw()).abs());
        }
    }
    assert!(worst <= 1, "{}", worst);
}

#[test]
fn between_the_branches_xyz_does_not_survive_lab() {
    // Y/Yn = 0.005: the response is on its linear segment, and its cube is
    // above the breakpoint
    let xyz: Xyz<D65> = Xyz::new(Fixed::zero(), Fixed::from_ratio(5, 1000), Fixed::zero());
    let lab = xyz.to_lab();
    assert!(close(lab.l, 116.0 * (24389.0 / 27.0 * 0.005 + 16.0 / 116.0) - 16.0, 1e-4));
    let back = lab.to_xyz();
    assert!(as_f64(back.y) > 100.0);
}

#[test]
fn lab_survives_xyz() {
    for (l, a, b) in [(50, 10, -20), (90, -30, 40), (100, 0, 0), (30, 60, 20), (75, -80, 5)] {
        let lab: Lab<D65> =
            Lab::new(Fixed::from_ratio(l, 1), Fixed::from_ratio(a, 1), Fixed::from_ratio(b, 1));
        let back = lab.to_xyz().to_lab();
        assert!(close(back.l, l as f64, 1e-6), "{}", as_f64(back.l));
        assert!(close(back.a, a as f64, 2e-6), "{}", as_f64(back.a));
        assert!(close(back.b, b as f64, 1e-6), "{}", as_f64(back.b));
    }
    // where Z is on the linear segment, one raw unit of Z is worth far more
    let lab: Lab<D65> =
        Lab::new(Fixed::from_ratio(30, 1), Fixed::from_ratio(60, 1), Fixed::from_ratio(60, 1));
    let back = lab.to_xyz().to_lab();
    assert!(close(back.l, 30.0, 1e-6));
    assert!(close(back.a, 60.0, 2e-6));
    assert!(close(back.b, 60.0, 1e-4));
    assert!(!close(back.b, 60.0, 1e-6));
}

#[test]
fn chromacity_of_3_and_4_is_5() {
    let lab: Lab<D65> =
        Lab::new(Fixed::from_ratio(50, 1), Fixed::from_ratio(3, 1), Fixed::from_ratio(4, 1));
    assert_eq!(lab.chromacity().raw(), 5 * ONE);
    let lab: Lab<D65> =
        Lab::new(Fixed::from_ratio(50, 1), Fixed::from_ratio(-3, 1), Fixed::from_ratio(-4, 1));
    assert_eq!(lab.chromacity().raw(), 5 * ONE);
}

#[test]
fn chromacity_rounds_down_and_saturates() {
    let lab: Lab<D65> = Lab::new(Fixed::zero(), Fixed::from_raw(1), Fixed::from_raw(1));
    assert_eq!(lab.chromacity().raw(), 1);
    let lab: Lab<D65> = Lab::new(Fixed::zero(), Fixed::from_raw(2), Fixed::from_raw(2));
    assert_eq!(lab.chromacity().raw(), 2);
    let lab: Lab<D65> = Lab::new(Fixed::zero(), Fixed::one(), Fixed::one());
    assert_eq!(lab.chromacity().raw(), 6074000999);
    let lab: Lab<D65> = Lab::new(Fixed::zero(), Fixed::zero(), Fixed::zero());
    assert_eq!(lab.chromacity().raw(), 0);
    let big = Fixed::from_ratio(32767, 1);
    let lab: Lab<D65> = Lab::new(Fixed::zero(), big, big);
    assert_eq!(lab.chromacity().raw(), 0x7FFF_FFFF_FFFF);
}

#[test]
fn brightness_is_the_lightness() {
    let lab: Lab<D65> =
        Lab::new(Fixed::from_ratio(50, 1), Fixed::from_ratio(3, 1), Fixed::from_ratio(4, 1));
    assert_eq!(lab.brightness().raw(), 50 * ONE);
}

#[test]
fn offsetting_the_chromacity() {
    let lab: Lab<D65> =
        Lab::new(Fixed::from_ratio(50, 1), Fixed::from_ratio(3, 1), Fixed::from_ratio(4, 1));
    let out = lab.offset_chromacity(Fixed::from_ratio(5, 1));
    assert_eq!((out.l.raw(), out.a.raw(), out.b.raw()), (50 * ONE, 6 * ONE, 8 * ONE));
    assert_eq!(out.chromacity().raw(), 10 * ONE);
    let inward = lab.offset_chromacity(Fixed::from_ratio(-5, 2));
    assert_eq!((inward.l.raw(), inward.a.raw(), inward.b.raw()), (50 * ONE, 3 * ONE / 2, 2 * ONE));
    let through = lab.offset_chromacity(Fixed::from_ratio(-10, 1));
    assert_eq!((through.a.raw(), through.b.raw()), (-3 * ONE, -4 * ONE));
}

#[test]
fn offsetting_the_chromacity_of_a_grey_changes_nothing() {
    let grey: Lab<D65> = Lab::new(Fixed::from_ratio(50, 1), Fixed::zero(), Fixed::zero());
    let out = grey.offset_chromacity(Fixed::from_ratio(5, 1));
    assert_eq!((out.l.raw(), out.a.raw(), out.b.raw()), (50 * ONE, 0, 0));
}

#[test]
fn lab_arithmetic() {
    let a: Lab<D65> =
        Lab::new(Fixed::from_ratio(50, 1), Fixed::from_ratio(3, 1), Fixed::from_ratio(-4, 1));
    let b: Lab<D65> =
        Lab::new(Fixed::from_ratio(20, 1), Fixed::from_ratio(-3, 1), Fixed::from_ratio(1, 2));
    let sum = a.add(b);
    assert_eq!((sum.l.raw(), sum.a.raw(), sum.b.raw()), (70 * ONE, 0, -7 * ONE / 2));
    let scaled = a.mul(Fixed::from_ratio(1, 2));
    assert_eq!((scaled.l.raw(), scaled.a.raw(), scaled.b.raw()), (25 * ONE, 3 * ONE / 2, -2 * ONE));
    let big: Lab<D65> = a.mul(Fixed::from_ratio(30000, 1));
    assert_eq!(big.l.raw(), 0x7FFF_FFFF_FFFF);
    assert_eq!(big.b.raw(), -0x7FFF_FFFF_FFFF);
}

#[test]
fn hue_is_within_a_turn() {
    const TURN: i64 = 26986075409;
    assert!(((TURN as f64) / 4294967296.0 - std::f64::consts::TAU).abs() < 1e-9);
    let at = |raw: i64| Lab::<D65>::hue_from_angle(Fixed::from_raw(raw)).raw();
    assert_eq!(at(0), 0);
    assert_eq!(at(1), 1);
    // a quarter turn and a half turn stay
    assert_eq!(at(6746518852), 6746518852);
    assert_eq!(at(13493037705), 13493037705);
    // below zero, a full turn more
    assert_eq!(at(-1), TURN - 1);
    assert_eq!(at(-6746518852), TURN - 6746518852);
    assert_eq!(at(-13493037705), 13493037704);
    for raw in [-13493037705i64, -5, 0, 77, 13493037705] {
        let h = at(raw);
        assert!(0 <= h && h < TURN);
    }
}

#[test]
fn lab_of_xyz_is_stable() {
    let w = D65::xyz();
    let mut seed: u64 = 777;
    let mut worst: i64 = 0;
    for _ in 0..2000 {
        let mut pick = |white: i64| -> i64 {
            seed = seed.wrapping_mul(6364136223846793005).wrapping_add(1442695040888963407);
            let u = (seed >> 33) as i64;
            if u % 4 == 0 {
                u % (54 * white / 707281)
            } else {
                let low = 216 * white / 24389 + 2;
                low + u % (2 * white - low + 1)
            }
        };
        let xyz: Xyz<D65> = Xyz::new(
            Fixed::from_raw(pick(w.x.raw())),
            Fixed::from_raw(pick(w.y.raw())),
            Fixed::from_raw(pick(w.z.raw())),
        );
        let first = xyz.to_lab();
        let second = first.to_xyz().to_lab();
        for (a, b) in [(second.l, first.l), (second.a, first.a), (second.b, first.b)] {
            worst = worst.max((a.raw() - b.raw()).abs());
        }
    }
    assert!(worst <= 0x10_0000, "{}", worst);
}

#[test]
fn the_white_of_srgb_survives_lab() {
    // its Y is a little above that of D65
    let xyz: Xyz<D65> =
        Xyz::new(raw(4082237565), raw(4294967726), raw(4676489241));
    let back = xyz.to_lab().to_xyz();
    assert_eq!((back.x.raw(), back.y.raw(), back.z.raw()), (4082237564, 4294967725, 4676489240));
}
