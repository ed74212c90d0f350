use color::fixed::Fixed;
use color::srgb::Srgb;

const ONE: i64 = 4294967296;

fn as_f64(x: Fixed) -> f64 {
    x.raw() as f64 / 4294967296.0
}

fn decode_f64(v: f64) -> f64 {
    if v <= 0.04045 {
        v / 12.92
    } else {
        ((v + 0.055) / 1.055).powf(2.4)
    }
}

fn encode_f64(v: f64) -> f64 {
    if v <= 0.0031308 {
        12.92 * v
    } else {
        1.055 * v.powf(1.0 / 2.4) - 0.055
    }
}

#[test]
fn decoding_fixes_zero_and_one() {
    assert_eq!(Srgb::to_linear(Fixed::zero()).raw(), 0);
    assert_eq!(Srgb::to_linear(Fixed::one()).raw(), ONE);
}

#[test]
fn encoding_fixes_zero_and_one() {
    assert_eq!(Srgb::from_linear(Fixed::zero()).raw(), 0);
    assert_eq!(Srgb::from_linear(Fixed::one()).raw(), ONE);
}

#[test]
fn decoding_one_half() {
    assert_eq!(Srgb::to_linear(Fixed::from_ratio(1, 2)).raw(), 919299698);
}

#[test]
fn encoding_one_half() {
    assert_eq!(Srgb::from_linear(Fixed::from_ratio(1, 2)).raw(), 3158334193);
}

#[test]
fn decoding_below_the_knee_divides_by_12_92() {
    let v = Fixed::from_ratio(4, 100);
    assert_eq!(v.raw(), 171798692);
    assert_eq!(Srgb::to_linear(v).raw(), 13297112);
    assert_eq!(Srgb::to_linear(Fixed::from_raw(1292)).raw(), 100);
    assert_eq!(Srgb::to_linear(Fixed::from_raw(1291)).raw(), 99);
}

#[test]
fn encoding_below_the_knee_multiplies_by_12_92() {
    assert_eq!(Srgb::from_linear(Fixed::from_raw(100)).raw(), 1292);
    assert_eq!(Srgb::from_linear(Fixed::from_raw(1)).raw(), 12);
    assert_eq!(Srgb::from_linear(Fixed::from_raw(13297112)).raw(), 171798687);
}

#[test]
fn the_knee_of_the_decoding_curve() {
    // 0.04045 is between raw 173731427 and the next one
    assert_eq!(Srgb::to_linear(Fixed::from_raw(173731427)).raw(), 13446704);
    assert_eq!(Srgb::to_linear(Fixed::from_raw(173731428)).raw(), 13446714);
}

#[test]
fn the_knee_of_the_encoding_curve() {
    // 0.0031308 is between raw 13446683 and the next one
    assert_eq!(Srgb::from_linear(Fixed::from_raw(13446683)).raw(), 173731144);
    assert_eq!(Srgb::from_linear(Fixed::from_raw(13446684)).raw(), 173731034);
}

#[test]
fn negative_values_stay_on_the_linear_segment() {
    assert_eq!(Srgb::to_linear(Fixed::from_ratio(-1, 2)).raw(), -166213905);
    assert_eq!(Srgb::from_linear(Fixed::from_ratio(-1, 2)).raw(), -27745488733);
}

#[test]
fn large_values_saturate() {
    let big = Fixed::from_ratio(30000, 1);
    assert_eq!(Srgb::to_linear(big).raw(), 0x7FFF_FFFF_FFFF);
    assert_eq!(Srgb::from_linear(Fixed::from_ratio(-30000, 1)).raw(), -0x7FFF_FFFF_FFFF);
    // 1.055 * 30000^(1/2.4) - 0.055 is about 77.3
    let top = as_f64(Srgb::from_linear(big));
    assert!((top - encode_f64(30000.0)).abs() < 1e-6);
}

#[test]
fn decoding_agrees_with_the_formula() {
    for i in 0..=1000 {
        let v = Fixed::from_ratio(i, 1000);
        let got = as_f64(Srgb::to_linear(v));
        let want = decode_f64(as_f64(v));
        assert!((got - want).abs() < 1e-9, "{} {} {}", i, got, want);
    }
}

#[test]
fn encoding_agrees_with_the_formula() {
    for i in 0..=1000 {
        let v = Fixed::from_ratio(i, 1000);
        let got = as_f64(Srgb::from_linear(v));
        let want = encode_f64(as_f64(v));
        assert!((got - want).abs() < 1e-9, "{} {} {}", i, got, want);
    }
}

#[test]
fn encoding_undoes_decoding() {
    let mut worst: i64 = 0;
    let mut check = |raw: i64| {
        let back = Srgb::from_linear(Srgb::to_linear(Fixed::from_raw(raw))).raw();
        assert!((back - raw).abs() <= 400, "{} {}", raw, back);
        worst = worst.max((back - raw).abs());
    };
    for i in 0..=4096 {
        check(i * (ONE / 4096));
    }
    for raw in 173731000..173731600 {
        check(raw);
    }
    for raw in 0..300 {
        check(raw);
        check(ONE - raw);
    }
    assert!(as_f64(Fixed::from_raw(worst)) < 1e-6);
}

#[test]
fn decoding_undoes_encoding() {
    let mut check = |raw: i64| {
        let back = Srgb::to_linear(Srgb::from_linear(Fixed::from_raw(raw))).raw();
        assert!((back - raw).abs() <= 40, "{} {}", raw, back);
    };
    for i in -4096..=8192 {
        check(i * (ONE / 4096));
    }
    for raw in 13446500..13446900 {
        check(raw);
    }
    for raw in 0..300 {
        check(raw);
        check(ONE - raw);
    }
}

#[test]
fn decoding_keeps_the_order() {
    let mut last = Srgb::to_linear(Fixed::from_raw(-41 * (ONE / 4096))).raw();
    for i in -40..=8192 {
        let now = Srgb::to_linear(Fixed::from_raw(i * (ONE / 4096))).raw();
        assert!(last <= now);
        last = now;
    }
    let mut last = Srgb::to_linear(Fixed::from_raw(173731000)).raw();
    for raw in 173731000..173731600 {
        let now = Srgb::to_linear(Fixed::from_raw(raw)).raw();
        assert!(last <= now);
        last = now;
    }
}

#[test]
fn encoding_keeps_the_order_on_each_segment() {
    let mut last = Srgb::from_linear(Fixed::from_raw(-5000)).raw();
    for raw in (-5000..=13446683).step_by(997) {
        let now = Srgb::from_linear(Fixed::from_raw(raw)).raw();
        assert!(last <= now);
        last = now;
    }
    let mut last = Srgb::from_linear(Fixed::from_raw(13446684)).raw();
    for raw in (13446684..=2 * ONE).step_by(1048573) {
        let now = Srgb::from_linear(Fixed::from_raw(raw)).raw();
        assert!(last <= now);
        last = now;
    }
    // from the one segment to the other the curve steps down
    let below = Srgb::from_linear(Fixed::from_raw(13446683)).raw();
    let above = Srgb::from_linear(Fixed::from_raw(13446684)).raw();
    assert!(above < below && below - above == 110);
}
