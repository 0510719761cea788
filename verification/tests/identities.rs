use std::cell::RefCell;
use tag_composition::reconcile::{implied, reconcile_sn123, reconcile_sn13, reconcile_sn2, THREE, TWO};
use tag_composition::value::{Operation, Value};

fn value(x: f64) -> Value {
    Value::from_bits(x.to_bits())
}

fn number(v: Value) -> f64 {
    f64::from_bits(v.to_bits())
}

fn arithmetic(operation: Operation, a: Value, b: Value) -> Value {
    let (x, y) = (number(a), number(b));
    value(match operation {
        Operation::Plus => x + y,
        Operation::Minus => x - y,
        Operation::Times => x * y,
        Operation::Divide => x / y,
    })
}

fn sn123(sn13: f64, sn2: f64) -> f64 {
    number(reconcile_sn123(value(sn13), value(sn2), arithmetic))
}

fn sn13(sn123: f64, sn2: f64) -> f64 {
    number(reconcile_sn13(value(sn123), value(sn2), arithmetic))
}

fn sn2(sn123: f64, sn13: f64) -> f64 {
    number(reconcile_sn2(value(sn123), value(sn13), arithmetic))
}

fn percentages() -> Vec<f64> {
    vec![0.0, 0.5, 1.0, 10.0, 23.33, 30.0, 33.3, 50.0, 70.0, 76.67, 90.0, 99.9, 100.0]
}

#[test]
fn constants_are_two_and_three() {
    assert_eq!(f64::from_bits(TWO), 2.0);
    assert_eq!(f64::from_bits(THREE), 3.0);
}

#[test]
fn identities_give_the_documented_values() {
    assert_eq!(sn123(30.0, 10.0), (2.0 * 30.0 + 10.0) / 3.0);
    assert_eq!(sn13(70.0 / 3.0, 10.0), (3.0 * (70.0 / 3.0) - 10.0) / 2.0);
    assert_eq!(sn2(70.0 / 3.0, 30.0), 3.0 * (70.0 / 3.0) - 2.0 * 30.0);
    assert!((sn123(30.0, 10.0) - 23.333333333333332).abs() < 1e-12);
    assert!((sn123(70.0, 90.0) - 76.66666666666667).abs() < 1e-12);
}

#[test]
fn identities_ask_for_the_operations_in_order() {
    let calls: RefCell<Vec<(Operation, f64, f64)>> = RefCell::new(Vec::new());
    let logged = |operation: Operation, a: Value, b: Value| {
        calls.borrow_mut().push((operation, number(a), number(b)));
        arithmetic(operation, a, b)
    };
    reconcile_sn123(value(30.0), value(10.0), &logged);
    reconcile_sn13(value(20.0), value(10.0), &logged);
    reconcile_sn2(value(20.0), value(30.0), &logged);
    assert_eq!(
        *calls.borrow(),
        vec![
            (Operation::Times, 2.0, 30.0),
            (Operation::Plus, 60.0, 10.0),
            (Operation::Divide, 70.0, 3.0),
            (Operation::Times, 3.0, 20.0),
            (Operation::Minus, 60.0, 10.0),
            (Operation::Divide, 50.0, 2.0),
            (Operation::Times, 3.0, 20.0),
            (Operation::Times, 2.0, 30.0),
            (Operation::Minus, 60.0, 60.0),
        ]
    );
}

#[test]
fn round_trip_through_sn123_gives_sn13_back() {
    for a in percentages() {
        for b in percentages() {
            assert!((sn13(sn123(a, b), b) - a).abs() < 1e-9);
        }
    }
}

#[test]
fn round_trip_through_sn123_gives_sn2_back() {
    for a in percentages() {
        for b in percentages() {
            assert!((sn2(sn123(a, b), a) - b).abs() < 1e-9);
        }
    }
}

#[test]
fn round_trip_through_sn13_and_sn2_gives_sn123_back() {
    for t in percentages() {
        for b in percentages() {
            assert!((sn123(sn13(t, b), b) - t).abs() < 1e-9);
            assert!((sn123(b, sn2(t, b)) - t).abs() < 1e-9);
            assert!((sn13(t, sn2(t, b)) - b).abs() < 1e-9);
            assert!((sn2(t, sn13(t, b)) - b).abs() < 1e-9);
        }
    }
}

#[test]
fn not_a_number_goes_through_the_identities() {
    assert!(sn123(f64::NAN, 10.0).is_nan());
    assert!(sn123(10.0, f64::NAN).is_nan());
    assert!(sn13(f64::NAN, 10.0).is_nan());
    assert!(sn13(10.0, f64::NAN).is_nan());
    assert!(sn2(f64::NAN, 10.0).is_nan());
    assert!(sn2(10.0, f64::NAN).is_nan());
}

#[test]
fn negative_and_infinite_percentages_go_through_the_identities() {
    assert_eq!(sn123(-30.0, -10.0), (2.0 * -30.0 + -10.0) / 3.0);
    assert_eq!(sn13(f64::INFINITY, 1.0), f64::INFINITY);
    assert!(sn2(f64::INFINITY, f64::INFINITY).is_nan());
}

#[test]
fn implied_percentages_stand_in_the_order_of_a_profile() {
    let got = implied(value(30.0), value(10.0), value(20.0), arithmetic);
    assert_eq!(number(got[0]), (3.0 * 20.0 - 10.0) / 2.0);
    assert_eq!(number(got[1]), 3.0 * 20.0 - 2.0 * 30.0);
    assert_eq!(number(got[2]), (2.0 * 30.0 + 10.0) / 3.0);
    assert_eq!(got[0], reconcile_sn13(value(20.0), value(10.0), arithmetic));
    assert_eq!(got[1], reconcile_sn2(value(20.0), value(30.0), arithmetic));
    assert_eq!(got[2], reconcile_sn123(value(30.0), value(10.0), arithmetic));
}
