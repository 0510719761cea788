use tag_composition::error::Error;
use std::cell::RefCell;
use tag_composition::input::{Input, SCALE};
use tag_composition::ordered::OrderedMap;
use tag_composition::output::Output;
use tag_composition::specie::Specie;
use tag_composition::tag::{Tag, Tags};
use tag_composition::value::{Bound, Operation, Value};

fn value(x: f64) -> Value {
    Value::from_bits(x.to_bits())
}

fn number(v: Value) -> f64 {
    f64::from_bits(v.to_bits())
}

fn arithmetic(operation: Operation, a: Value, b: Value) -> Value {
    let (x, y) = (number(a), number(b));
    value(match operation {
        Operation::Plus => x + y,
        Operation::Minus => x - y,
        Operation::Times => x * y,
        Operation::Divide => x / y,
    })
}

fn specie(steps: &[&str]) -> Specie {
    Specie::from(steps.iter().map(|s| s.to_string()).collect())
}

fn tag(a: &str, b: &str, c: &str) -> Tag {
    Tag::new([a.to_string(), b.to_string(), c.to_string()])
}

fn profiles(rows: &[(&str, [f64; 3])]) -> OrderedMap<String, Vec<Value>> {
    OrderedMap::from_entries(
        rows.iter()
            .map(|(name, p)| (name.to_string(), p.iter().map(|x| value(*x)).collect()))
            .collect(),
    )
}

fn species_a() -> Input {
    Input::new(OrderedMap::from_entries(vec![(
        specie(&["SpeciesA"]),
        profiles(&[("16:0", [30.0, 10.0, 23.33]), ("18:1", [70.0, 90.0, 76.67])]),
    )]))
}

fn rows_of(output: &Output, at: usize) -> Vec<(Tags, f64)> {
    output.to_vec()[at].1.iter().map(|(k, v)| (k.clone(), number(*v))).collect()
}

fn close(a: f64, b: f64) -> bool {
    (a - b).abs() < 1e-9
}

#[test]
fn derives_eight_rows_from_two_fatty_acids() {
    let output = species_a().output(arithmetic);
    assert_eq!(output.len(), 1);
    let rows = rows_of(&output, 0);
    assert_eq!(rows.len(), 8);
    let expected = [
        (("16:0", "16:0", "16:0"), 0.9),
        (("16:0", "16:0", "18:1"), 2.1),
        (("16:0", "18:1", "16:0"), 8.1),
        (("16:0", "18:1", "18:1"), 18.9),
        (("18:1", "16:0", "16:0"), 2.1),
        (("18:1", "16:0", "18:1"), 4.9),
        (("18:1", "18:1", "16:0"), 18.9),
        (("18:1", "18:1", "18:1"), 44.1),
    ];
    for (row, ((a, b, c), quantity)) in rows.iter().zip(expected.iter()) {
        assert_eq!(row.0, Tags::singleton(tag(a, b, c)));
        assert!(close(row.1, *quantity));
    }
    assert_eq!(rows[0].1, 30.0 * 10.0 * 30.0 * 0.0001);
    assert_eq!(rows[7].1, 70.0 * 90.0 * 70.0 * 0.0001);
}

#[test]
fn bound_keeps_rows_of_at_least_one_percent() {
    let output = species_a().output(arithmetic);
    let bounded = output.bound(Bound::Included(value(1.0)));
    let rows = rows_of(&bounded, 0);
    let keys: Vec<Tags> = rows.iter().map(|row| row.0.clone()).collect();
    assert_eq!(
        keys,
        vec![
            Tags::singleton(tag("16:0", "16:0", "18:1")),
            Tags::singleton(tag("16:0", "18:1", "16:0")),
            Tags::singleton(tag("16:0", "18:1", "18:1")),
            Tags::singleton(tag("18:1", "16:0", "16:0")),
            Tags::singleton(tag("18:1", "16:0", "18:1")),
            Tags::singleton(tag("18:1", "18:1", "16:0")),
            Tags::singleton(tag("18:1", "18:1", "18:1")),
        ]
    );
    assert!(rows.iter().all(|row| row.1 >= 1.0));
}

#[test]
fn derivation_has_cube_of_fatty_acids_rows() {
    for n in 0..5usize {
        let names: Vec<String> = (0..n).map(|i| format!("fa{i}")).collect();
        let rows: Vec<(&str, [f64; 3])> =
            names.iter().map(|name| (name.as_str(), [1.0, 2.0, 3.0])).collect();
        let input = Input::new(OrderedMap::from_entries(vec![(specie(&["S"]), profiles(&rows))]));
        let output = input.output(arithmetic);
        assert_eq!(output.to_vec()[0].1.len(), n * n * n);
    }
}

#[test]
fn species_without_fatty_acids_has_no_rows() {
    let input = Input::new(OrderedMap::from_entries(vec![(specie(&["Empty"]), profiles(&[]))]));
    let output = input.output(arithmetic);
    assert_eq!(output.len(), 1);
    assert!(output.to_vec()[0].1.is_empty());
    let none = Input::new(OrderedMap::from_entries(vec![]));
    assert_eq!(none.output(arithmetic).len(), 0);
}

fn short_profiles() -> Input {
    Input::new(OrderedMap::from_entries(vec![
        (specie(&["Good"]), profiles(&[("16:0", [1.0, 2.0, 3.0])])),
        (
            specie(&["Genus", "Bad"]),
            OrderedMap::from_entries(vec![
                ("16:0".to_string(), vec![value(30.0), value(10.0), value(23.33)]),
                ("18:0".to_string(), vec![value(70.0), value(90.0)]),
                ("18:1".to_string(), vec![value(5.0)]),
                ("18:2".to_string(), vec![]),
            ]),
        ),
    ]))
}

#[test]
fn profile_without_three_percentages_is_reported() {
    match short_profiles().validate() {
        Err(Error::MalformedProfile { specie: found, fatty_acid }) => {
            assert_eq!(found, specie(&["Genus", "Bad"]));
            assert_eq!(fatty_acid, "18:0");
        }
        _ => panic!("a malformed profile was accepted"),
    }
    assert!(species_a().validate().is_ok());
    assert!(Input::new(OrderedMap::from_entries(vec![])).validate().is_ok());
}

#[test]
fn missing_percentages_count_as_zero() {
    let output = short_profiles().output(arithmetic);
    assert_eq!(output.len(), 2);
    assert_eq!(rows_of(&output, 0).len(), 1);
    let rows = rows_of(&output, 1);
    assert_eq!(rows.len(), 64);
    let names = ["16:0", "18:0", "18:1", "18:2"];
    let sn13 = [30.0, 70.0, 5.0, 0.0];
    let sn2 = [10.0, 90.0, 0.0, 0.0];
    let mut t = 0;
    for i in 0..4 {
        for j in 0..4 {
            for k in 0..4 {
                assert_eq!(rows[t].0, Tags::singleton(tag(names[i], names[j], names[k])));
                assert_eq!(rows[t].1, sn13[i] * sn2[j] * sn13[k] * 0.0001);
                t += 1;
            }
        }
    }
}

#[test]
fn profile_with_two_percentages_is_derived_as_it_stands() {
    let two = Input::new(OrderedMap::from_entries(vec![(
        specie(&["S"]),
        OrderedMap::from_entries(vec![
            ("16:0".to_string(), vec![value(30.0), value(10.0)]),
            ("18:1".to_string(), vec![value(70.0), value(90.0)]),
        ]),
    )]));
    assert!(two.validate().is_err());
    let got = rows_of(&two.output(arithmetic), 0);
    let want = rows_of(&species_a().output(arithmetic), 0);
    assert_eq!(got.len(), 8);
    assert_eq!(got, want);
}

#[test]
fn percentage_is_the_value_or_zero() {
    let profile = vec![value(30.0), value(10.0)];
    assert_eq!(tag_composition::input::percentage(&profile, 0), value(30.0));
    assert_eq!(tag_composition::input::percentage(&profile, 1), value(10.0));
    assert_eq!(tag_composition::input::percentage(&profile, 2), value(0.0));
    assert_eq!(tag_composition::input::percentage(&vec![], 0).to_bits(), 0);
}

#[test]
fn rows_come_with_the_last_position_running_fastest() {
    let input = Input::new(OrderedMap::from_entries(vec![(
        specie(&["S"]),
        profiles(&[("A", [1.0, 2.0, 0.0]), ("B", [3.0, 5.0, 0.0]), ("C", [7.0, 11.0, 0.0])]),
    )]));
    let output = input.output(arithmetic);
    let rows = rows_of(&output, 0);
    let names = ["A", "B", "C"];
    let sn13 = [1.0, 3.0, 7.0];
    let sn2 = [2.0, 5.0, 11.0];
    let mut t = 0;
    for i in 0..3 {
        for j in 0..3 {
            for k in 0..3 {
                assert_eq!(rows[t].0, Tags::singleton(tag(names[i], names[j], names[k])));
                assert_eq!(rows[t].1, sn13[i] * sn2[j] * sn13[k] * 0.0001);
                t += 1;
            }
        }
    }
}

#[test]
fn not_a_number_goes_through_the_derivation() {
    let input = Input::new(OrderedMap::from_entries(vec![(
        specie(&["S"]),
        profiles(&[("A", [f64::NAN, 2.0, 0.0])]),
    )]));
    let output = input.output(arithmetic);
    let rows = rows_of(&output, 0);
    assert_eq!(rows.len(), 1);
    assert!(rows[0].1.is_nan());
    let bounded = output.bound(Bound::Included(value(0.0)));
    assert_eq!(bounded.len(), 0);
}

#[test]
fn scale_is_one_ten_thousandth() {
    assert_eq!(f64::from_bits(SCALE), 0.0001);
    assert_eq!(f64::from_bits(SCALE), 1e-4);
}

#[test]
fn abundance_is_multiplied_from_left_to_right() {
    let input = Input::new(OrderedMap::from_entries(vec![(
        specie(&["S"]),
        profiles(&[("A", [3.0, 5.0, 7.0])]),
    )]));
    let calls: RefCell<Vec<(Operation, f64, f64)>> = RefCell::new(Vec::new());
    let output = input
        .output(|operation: Operation, a: Value, b: Value| {
            calls.borrow_mut().push((operation, number(a), number(b)));
            arithmetic(operation, a, b)
        });
    assert_eq!(
        *calls.borrow(),
        vec![
            (Operation::Times, 3.0, 5.0),
            (Operation::Times, 15.0, 3.0),
            (Operation::Times, 45.0, 0.0001),
        ]
    );
    assert_eq!(rows_of(&output, 0)[0].1, 3.0 * 5.0 * 3.0 * 0.0001);
}

#[test]
fn index_triples_count_in_the_base_of_the_list() {
    assert_eq!(tag_composition::cube::index_triples(0), Vec::<Vec<usize>>::new());
    assert_eq!(tag_composition::cube::index_triples(1), vec![vec![0, 0, 0]]);
    assert_eq!(
        tag_composition::cube::index_triples(2),
        vec![
            vec![0, 0, 0],
            vec![0, 0, 1],
            vec![0, 1, 0],
            vec![0, 1, 1],
            vec![1, 0, 0],
            vec![1, 0, 1],
            vec![1, 1, 0],
            vec![1, 1, 1],
        ]
    );
    let triples = tag_composition::cube::index_triples(5);
    assert_eq!(triples.len(), 125);
    for (t, triple) in triples.iter().enumerate() {
        assert_eq!(triple, &vec![t / 25, (t / 5) % 5, t % 5]);
    }
}
