use detrudr::double::Double;

const VALUES: [f64; 13] = [
    f64::NEG_INFINITY,
    f64::MIN,
    -1.5,
    -f64::MIN_POSITIVE,
    -5e-324,
    -0.0,
    0.0,
    5e-324,
    f64::MIN_POSITIVE,
    1.5,
    f64::MAX,
    f64::INFINITY,
    f64::NAN,
];

fn double(value: f64) -> Double {
    Double { bits: value.to_bits() }
}

#[test]
fn comparison_is_that_of_doubles() {
    for a in VALUES {
        assert_eq!(double(a).nan(), a.is_nan());
        assert_eq!(double(-a).nan(), a.is_nan());
        assert_eq!(double(a).is_zero(), a == 0.0);
        for b in VALUES {
            assert_eq!(double(a).gt(double(b)), a > b, "{a} and {b}");
        }
    }
}

#[test]
fn the_greater_of_two_is_that_of_doubles() {
    for a in VALUES {
        for b in VALUES {
            let greater = f64::from_bits(double(a).max(double(b)).bits);
            assert!(greater == a.max(b) || (a.is_nan() && b.is_nan()), "{a} and {b}");
        }
    }
    assert_eq!(Double::zero().bits, 0.0_f64.to_bits());
}

#[test]
fn greater_is_asymmetric_and_transitive() {
    let (low, middle, high) = (double(-2.0), double(0.5), double(3.0));
    assert!(middle.gt(low) && high.gt(middle) && high.gt(low));
    assert!(!low.gt(middle) && !middle.gt(high) && !low.gt(high));
}
