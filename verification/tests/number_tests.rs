use rloxj::number::{equal, less, less_equal, nan, negate};

fn samples() -> Vec<f64> {
    vec![
        0.0,
        -0.0,
        1.0,
        -1.0,
        0.5,
        -0.5,
        3.0,
        1e300,
        -1e300,
        5e-324,
        -5e-324,
        f64::MIN_POSITIVE,
        f64::MAX,
        f64::MIN,
        f64::INFINITY,
        f64::NEG_INFINITY,
        f64::NAN,
        -f64::NAN,
        f64::from_bits(0x7ff0_0000_0000_0001),
        f64::from_bits(0xfff8_0000_0000_0123),
    ]
}

#[test]
fn comparison_on_bits_agrees_with_the_numbers() {
    for a in samples() {
        for b in samples() {
            let (x, y) = (a.to_bits(), b.to_bits());
            assert_eq!(equal(x, y), a == b, "{} == {}", a, b);
            assert_eq!(less(x, y), a < b, "{} < {}", a, b);
            assert_eq!(less_equal(x, y), a <= b, "{} <= {}", a, b);
        }
    }
}

#[test]
fn not_a_number_is_recognized() {
    for a in samples() {
        assert_eq!(nan(a.to_bits()), a.is_nan(), "{}", a);
    }
}

#[test]
fn negation_flips_the_sign() {
    for a in samples() {
        assert_eq!(negate(a.to_bits()), (-a).to_bits(), "{}", a);
    }
    assert_eq!(negate(0), 0x8000_0000_0000_0000);
    assert_eq!(negate(1.5f64.to_bits()), (-1.5f64).to_bits());
}

#[test]
fn the_two_zeros_are_equal() {
    assert!(equal(0.0f64.to_bits(), (-0.0f64).to_bits()));
    assert!(!less((-0.0f64).to_bits(), 0.0f64.to_bits()));
    assert!(less_equal(0.0f64.to_bits(), (-0.0f64).to_bits()));
}

#[test]
fn not_a_number_equals_nothing() {
    let n = f64::NAN.to_bits();
    assert!(!equal(n, n));
    assert!(!less(n, n));
    assert!(!less_equal(n, n));
    assert!(!less(n, 1.0f64.to_bits()));
    assert!(!less(1.0f64.to_bits(), n));
}
