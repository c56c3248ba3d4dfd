use gtboost::num::{multiply_capped, Num};

fn num(x: f64) -> Num {
    Num { bits: x.to_bits() }
}

#[test]
fn comparisons_follow_the_numbers() {
    let list = [
        f64::NEG_INFINITY,
        -1e300,
        -2.5,
        -1.0,
        -1e-310,
        -0.0,
        0.0,
        1e-310,
        0.5,
        1.0,
        2.5,
        1e300,
        f64::INFINITY,
        f64::NAN,
    ];
    for a in list {
        for b in list {
            assert_eq!(num(a).lt(&num(b)), a < b, "{} < {}", a, b);
            assert_eq!(num(a).le(&num(b)), a <= b, "{} <= {}", a, b);
        }
    }
}

#[test]
fn nan_and_infinity_are_told_apart() {
    assert!(num(f64::NAN).is_nan());
    assert!(!num(f64::INFINITY).is_nan());
    assert!(!num(f64::INFINITY).is_finite());
    assert!(!num(f64::NAN).is_finite());
    assert!(num(-0.0).is_finite());
    assert!(num(f64::MAX).is_finite());
}

#[test]
fn zeros_share_an_order_key() {
    assert_eq!(num(0.0).order_key(), num(-0.0).order_key());
    assert!(num(-1.0).order_key() < num(0.0).order_key());
    assert!(num(1.0).order_key() < num(2.0).order_key());
}

#[test]
fn larger_and_smaller_pass_over_nan() {
    assert_eq!(num(f64::NAN).max(&num(3.0)), num(3.0));
    assert_eq!(num(3.0).max(&num(f64::NAN)), num(3.0));
    assert_eq!(num(2.0).max(&num(3.0)), num(3.0));
    assert_eq!(num(2.0).min(&num(3.0)), num(2.0));
    assert_eq!(num(f64::NAN).min(&num(3.0)), num(3.0));
}

#[test]
fn clamp_holds_to_its_bounds() {
    assert_eq!(num(-1.0).clamp(&num(0.0), &num(10.0)), num(0.0));
    assert_eq!(num(11.0).clamp(&num(0.0), &num(10.0)), num(10.0));
    assert_eq!(num(4.25).clamp(&num(0.0), &num(10.0)), num(4.25));
    assert!(num(f64::NAN).clamp(&num(0.0), &num(10.0)).is_nan());
    let once = num(77.0).clamp(&num(0.0), &num(10.0));
    assert_eq!(once.clamp(&num(0.0), &num(10.0)), once);
}

#[test]
fn signs_are_changed() {
    assert_eq!(num(-2.5).abs(), num(2.5));
    assert_eq!(num(2.5).abs(), num(2.5));
    assert_eq!(num(2.5).negate(), num(-2.5));
    assert_eq!(num(-0.0).negate(), num(0.0));
}

#[test]
fn conversions_agree_with_casts() {
    let list = [
        0.0, -0.0, 0.49, 0.5, 0.99, 1.0, 1.5, 2.5, -0.5, -0.51, -1.5, -2.5, 1e10, -1e10, 9.2e18, 9.3e18, -9.3e18,
        1.8e19, 1e300, -1e300, 4503599627370497.5, 1e-320,
    ];
    for x in list {
        assert_eq!(num(x).to_i64(), x as i64, "{}", x);
        assert_eq!(num(x).to_usize(), x as usize, "{}", x);
        assert_eq!(num(x).round_to_i64(), x.round() as i64, "{}", x);
        assert_eq!(num(x).round_to_usize(), x.round() as usize, "{}", x);
    }
    for x in [f64::NAN, f64::INFINITY, f64::NEG_INFINITY] {
        assert_eq!(num(x).to_i64(), x as i64);
        assert_eq!(num(x).to_usize(), x as usize);
        assert_eq!(num(x).round_to_i64(), x.round() as i64);
        assert_eq!(num(x).round_to_usize(), x.round() as usize);
    }
}

#[test]
fn products_stop_at_the_largest_number() {
    assert_eq!(multiply_capped(6, 7), 42);
    assert_eq!(multiply_capped(usize::MAX, 2), usize::MAX);
    assert_eq!(multiply_capped(0, usize::MAX), 0);
}
