use postfix_infix::value::Value;

fn value(x: f64) -> Value {
    Value::from_bits(x.to_bits())
}

fn samples() -> Vec<f64> {
    vec![
        f64::NEG_INFINITY,
        f64::MIN,
        -1.0e300,
        -2.0,
        -1.5,
        -1.0,
        -f64::MIN_POSITIVE,
        -5e-324,
        -0.0,
        0.0,
        5e-324,
        f64::MIN_POSITIVE,
        0.1,
        0.30000000000000004,
        1.0,
        1.0000000000000002,
        1.5,
        2.0,
        1.0e300,
        f64::MAX,
        f64::INFINITY,
        f64::NAN,
        -f64::NAN,
        f64::from_bits(0x7ff0_0000_0000_0001),
        f64::from_bits(0xffff_ffff_ffff_ffff),
    ]
}

#[test]
fn bits_round_trip() {
    assert_eq!(Value::from_bits(0x4008_0000_0000_0000).to_bits(), 0x4008_0000_0000_0000);
    assert_eq!(Value::from_bits(0).bits, 0);
    assert_eq!(value(3.0).to_bits(), 0x4008_0000_0000_0000);
}

#[test]
fn less_than_is_the_order_of_the_numbers() {
    for a in samples() {
        for b in samples() {
            assert_eq!(value(a).less_than(value(b)), a < b, "{a:?} < {b:?}");
        }
    }
}

#[test]
fn is_nan_tells_what_is_not_a_number() {
    for a in samples() {
        assert_eq!(value(a).is_nan(), a.is_nan(), "{a:?}");
    }
}

#[test]
fn the_two_zeros_are_equal() {
    assert!(!value(0.0).less_than(value(-0.0)));
    assert!(!value(-0.0).less_than(value(0.0)));
}

#[test]
fn nothing_is_below_or_above_what_is_not_a_number() {
    for a in samples() {
        assert!(!value(a).less_than(value(f64::NAN)));
        assert!(!value(f64::NAN).less_than(value(a)));
    }
}

#[test]
fn less_than_is_transitive_among_numbers() {
    let numbers: Vec<f64> = samples().into_iter().filter(|x| !x.is_nan()).collect();
    for &a in &numbers {
        assert!(!value(a).less_than(value(a)));
        for &b in &numbers {
            for &c in &numbers {
                if value(a).less_than(value(b)) && value(b).less_than(value(c)) {
                    assert!(value(a).less_than(value(c)));
                }
            }
        }
    }
}
