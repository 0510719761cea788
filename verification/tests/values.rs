use tag_composition::value::{Bound, Value};

fn value(x: f64) -> Value {
    Value::from_bits(x.to_bits())
}

fn samples() -> Vec<f64> {
    vec![
        0.0,
        -0.0,
        1.0,
        -1.0,
        0.09,
        4.41,
        100.0,
        -100.0,
        f64::MIN_POSITIVE,
        -f64::MIN_POSITIVE,
        5e-324,
        -5e-324,
        f64::MAX,
        f64::MIN,
        f64::INFINITY,
        f64::NEG_INFINITY,
        f64::NAN,
        -f64::NAN,
        f64::from_bits(0x7ff0_0000_0000_0001),
        f64::from_bits(0xfff8_0000_0000_0001),
        f64::EPSILON,
        1.0 + f64::EPSILON,
    ]
}

#[test]
fn bits_go_in_and_out_unchanged() {
    for x in samples() {
        assert_eq!(value(x).to_bits(), x.to_bits());
    }
    assert_eq!(Value::from_bits(0x4059_0000_0000_0000).to_bits(), 100.0f64.to_bits());
}

#[test]
fn not_a_number_is_recognised() {
    for x in samples() {
        assert_eq!(value(x).is_nan(), x.is_nan());
    }
}

#[test]
fn at_least_is_the_comparison_of_numbers() {
    for x in samples() {
        for y in samples() {
            assert_eq!(value(x).ge(value(y)), x >= y);
        }
    }
}

#[test]
fn above_is_the_comparison_of_numbers() {
    for x in samples() {
        for y in samples() {
            assert_eq!(value(x).gt(value(y)), x > y);
        }
    }
}

#[test]
fn total_order_is_that_of_the_standard() {
    for x in samples() {
        for y in samples() {
            assert_eq!(value(x).total_le(value(y)), x.total_cmp(&y).is_le());
        }
    }
}

#[test]
fn zeros_compare_equal_but_are_ordered_in_the_total_order() {
    assert!(value(-0.0).ge(value(0.0)));
    assert!(value(0.0).ge(value(-0.0)));
    assert!(!value(0.0).gt(value(-0.0)));
    assert!(value(-0.0).total_le(value(0.0)));
    assert!(!value(0.0).total_le(value(-0.0)));
}

#[test]
fn not_a_number_comes_last_in_the_total_order() {
    for x in samples() {
        assert!(value(x).total_le(value(f64::NAN)) || x.total_cmp(&f64::NAN).is_gt());
    }
    assert!(value(f64::INFINITY).total_le(value(f64::NAN)));
    assert!(!value(f64::NAN).total_le(value(f64::INFINITY)));
}

#[test]
fn bounds_admit_as_described() {
    let one = value(1.0);
    assert!(Bound::Included(one).admits(value(1.0)));
    assert!(Bound::Included(one).admits(value(1.5)));
    assert!(!Bound::Included(one).admits(value(0.5)));
    assert!(!Bound::Excluded(one).admits(value(1.0)));
    assert!(Bound::Excluded(one).admits(value(1.5)));
    assert!(!Bound::Excluded(one).admits(value(0.5)));
    assert!(Bound::Unbounded.admits(value(-3.0)));
    assert!(Bound::Unbounded.admits(value(f64::NAN)));
    assert!(!Bound::Included(one).admits(value(f64::NAN)));
    assert!(!Bound::Excluded(one).admits(value(f64::NAN)));
    assert!(!Bound::Included(value(f64::NAN)).admits(one));
    assert_eq!(Bound::default(), Bound::Unbounded);
}
