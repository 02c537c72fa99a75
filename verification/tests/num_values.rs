use bc_trade::num::Num;

fn n(x: f64) -> Num {
    Num(x.to_bits())
}

#[test]
fn order_matches_f64() {
    let values = [
        f64::NEG_INFINITY,
        -1e300,
        -2.5,
        -1.0,
        -1e-310,
        -0.0,
        0.0,
        1e-310,
        1e-300,
        0.5,
        1.0,
        1.9,
        1.91,
        3.0,
        1e300,
        f64::INFINITY,
        f64::NAN,
        -f64::NAN,
    ];
    for a in values {
        for b in values {
            assert_eq!(n(a).le(n(b)), a <= b, "{a} <= {b}");
            assert_eq!(n(a).lt(n(b)), a < b, "{a} < {b}");
            assert_eq!(n(a).ge(n(b)), a >= b, "{a} >= {b}");
        }
        assert_eq!(n(a).is_nan(), a.is_nan());
        assert_eq!(n(a).is_normal(), a.is_normal());
    }
}

#[test]
fn nan_value_is_f64_nan() {
    assert_eq!(Num::nan_value().0, f64::NAN.to_bits());
    assert!(f64::from_bits(Num::nan_value().0).is_nan());
    assert_eq!(f64::from_bits(Num::zero().0), 0.0);
}

#[test]
fn whole_numbers_convert_exactly() {
    for i in [0usize, 1, 2, 3, 7, 8, 48, 1000, 123_456_789, (1usize << 53) - 1] {
        assert_eq!(f64::from_bits(Num::from_index(i).0), i as f64);
    }
}

#[test]
fn equality_is_ieee() {
    assert_eq!(n(0.0), n(-0.0));
    assert_ne!(n(f64::NAN), n(f64::NAN));
    assert_eq!(n(1.5), n(1.5));
    assert_ne!(n(1.5), n(-1.5));
    assert_eq!(n(f64::INFINITY), n(f64::INFINITY));
    for a in [-2.0, -0.0, 0.0, 1e-310, 3.0, f64::NAN, f64::INFINITY] {
        for b in [-2.0, -0.0, 0.0, 1e-310, 3.0, f64::NAN, f64::INFINITY] {
            assert_eq!(n(a) == n(b), a == b);
        }
    }
}
