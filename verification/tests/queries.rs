use tag_composition::config::{Composition, Config, Sort};
use tag_composition::input::Input;
use tag_composition::ordered::OrderedMap;
use tag_composition::output::{total, Output};
use tag_composition::specie::Specie;
use tag_composition::tag::{Pattern, Tag, Tags};
use tag_composition::value::{Bound, Operation, Value};

fn value(x: f64) -> Value {
    Value::from_bits(x.to_bits())
}

fn number(v: Value) -> f64 {
    f64::from_bits(v.to_bits())
}

fn arithmetic(operation: Operation, a: Value, b: Value) -> Value {
    let (x, y) = (number(a), number(b));
    value(match operation {
        Operation::Plus => x + y,
        Operation::Minus => x - y,
        Operation::Times => x * y,
        Operation::Divide => x / y,
    })
}

fn specie(name: &str) -> Specie {
    Specie::from(vec![name.to_string()])
}

fn tag(a: &str, b: &str, c: &str) -> Tag {
    Tag::new([a.to_string(), b.to_string(), c.to_string()])
}

fn one(a: &str, b: &str, c: &str) -> Tags {
    Tags::singleton(tag(a, b, c))
}

fn output(species: Vec<(&str, Vec<(Tags, f64)>)>) -> Output {
    Output::new(OrderedMap::from_entries(
        species
            .into_iter()
            .map(|(name, rows)| {
                (specie(name), OrderedMap::from_entries(rows.into_iter().map(|(k, v)| (k, value(v))).collect()))
            })
            .collect(),
    ))
}

fn plain(output: &Output) -> Vec<(String, Vec<(String, u64)>)> {
    output
        .to_vec()
        .into_iter()
        .map(|(s, rows)| (s.to_string(), rows.into_iter().map(|(k, v)| (k.to_string(), v.to_bits())).collect()))
        .collect()
}

fn expect(species: Vec<(&str, Vec<(&str, f64)>)>) -> Vec<(String, Vec<(String, u64)>)> {
    species
        .into_iter()
        .map(|(s, rows)| (s.to_string(), rows.into_iter().map(|(k, v)| (k.to_string(), v.to_bits())).collect()))
        .collect()
}

fn sample() -> Output {
    output(vec![
        ("One", vec![(one("A", "B", "C"), 5.0), (one("C", "B", "A"), 1.0), (one("A", "A", "A"), 3.0), (one("B", "B", "B"), 1.0)]),
        ("Two", vec![(one("A", "B", "C"), 0.5), (one("B", "A", "B"), 0.25)]),
    ])
}

#[test]
fn bound_drops_rows_and_then_empty_species() {
    let bounded = sample().bound(Bound::Included(value(1.0)));
    assert_eq!(plain(&bounded), expect(vec![("One", vec![("ABC", 5.0), ("CBA", 1.0), ("AAA", 3.0), ("BBB", 1.0)])]));
    let bounded = sample().bound(Bound::Excluded(value(1.0)));
    assert_eq!(plain(&bounded), expect(vec![("One", vec![("ABC", 5.0), ("AAA", 3.0)])]));
    let bounded = sample().bound(Bound::Unbounded);
    assert_eq!(plain(&bounded), plain(&sample()));
    let bounded = sample().bound(Bound::Included(value(100.0)));
    assert_eq!(bounded.len(), 0);
}

#[test]
fn higher_inclusive_bound_keeps_a_subset() {
    let thresholds = [-1.0, 0.0, 0.25, 0.5, 1.0, 3.0, 5.0, 6.0];
    for x in thresholds {
        for y in thresholds {
            if x >= y {
                let high = plain(&sample().bound(Bound::Included(value(x))));
                let low = plain(&sample().bound(Bound::Included(value(y))));
                for (name, rows) in &high {
                    let (_, low_rows) = low.iter().find(|(n, _)| n == name).unwrap();
                    for row in rows {
                        assert!(low_rows.contains(row));
                    }
                }
            }
        }
    }
}

#[test]
fn exclusive_bound_leaves_out_what_equals_it() {
    for x in [0.25, 0.5, 1.0, 3.0, 5.0] {
        let bounded = sample().bound(Bound::Excluded(value(x)));
        for (_, rows) in bounded.to_vec() {
            for (_, v) in rows {
                assert!(number(v) != x);
                assert!(number(v) > x);
            }
        }
    }
}

#[test]
fn filter_keeps_what_the_predicate_accepts() {
    let kept = sample().filter(|tags: &Tags, v: Value| tags.get(0).fatty_acids()[0] == "A" && number(v) < 4.0);
    assert_eq!(plain(&kept), expect(vec![("One", vec![("AAA", 3.0)]), ("Two", vec![("ABC", 0.5)])]));
    let none = sample().filter(|_: &Tags, _: Value| false);
    assert_eq!(none.len(), 0);
    let all = sample().filter(|_: &Tags, _: Value| true);
    assert_eq!(plain(&all), plain(&sample()));
}

#[test]
fn map_with_the_identity_changes_nothing() {
    let mapped = sample().map(|tags: Tags| tags, arithmetic);
    assert_eq!(plain(&mapped), plain(&sample()));
}

#[test]
fn map_adds_the_quantities_of_rows_that_fall_together() {
    let mapped = sample().map(|tags: Tags| tags.with_reversed(), arithmetic);
    assert_eq!(
        plain(&mapped),
        expect(vec![
            ("One", vec![("ABC, CBA", 6.0), ("AAA", 3.0), ("BBB", 1.0)]),
            ("Two", vec![("ABC, CBA", 0.5), ("BAB", 0.25)]),
        ])
    );
}

#[test]
fn map_hands_the_sum_so_far_and_then_the_next_quantity() {
    let first = |operation: Operation, a: Value, _b: Value| {
        assert_eq!(operation, Operation::Plus);
        a
    };
    let second = |_operation: Operation, _a: Value, b: Value| b;
    let to_one = |_: Tags| one("X", "X", "X");
    assert_eq!(plain(&sample().map(to_one, first))[0], ("One".to_string(), vec![("XXX".to_string(), 5.0f64.to_bits())]));
    assert_eq!(plain(&sample().map(to_one, second))[0], ("One".to_string(), vec![("XXX".to_string(), 1.0f64.to_bits())]));
}

#[test]
fn sort_by_key_orders_the_sets() {
    let sorted = sample().sort(Sort::Key);
    assert_eq!(
        plain(&sorted),
        expect(vec![
            ("One", vec![("AAA", 3.0), ("ABC", 5.0), ("BBB", 1.0), ("CBA", 1.0)]),
            ("Two", vec![("ABC", 0.5), ("BAB", 0.25)]),
        ])
    );
    for (_, rows) in sorted.to_vec() {
        for pair in rows.windows(2) {
            assert!(pair[0].0 < pair[1].0);
        }
    }
}

#[test]
fn sort_by_value_keeps_equal_quantities_as_they_stood() {
    let sorted = sample().sort(Sort::Value);
    assert_eq!(
        plain(&sorted),
        expect(vec![
            ("One", vec![("CBA", 1.0), ("BBB", 1.0), ("AAA", 3.0), ("ABC", 5.0)]),
            ("Two", vec![("BAB", 0.25), ("ABC", 0.5)]),
        ])
    );
    let other = output(vec![("S", vec![(one("B", "B", "B"), 1.0), (one("C", "B", "A"), 1.0), (one("A", "A", "A"), 0.5), (one("Z", "Z", "Z"), 1.0)])]);
    assert_eq!(plain(&other.sort(Sort::Value)), expect(vec![("S", vec![("AAA", 0.5), ("BBB", 1.0), ("CBA", 1.0), ("ZZZ", 1.0)])]));
}

#[test]
fn sort_by_value_follows_the_total_order() {
    let rows = vec![
        (one("A", "A", "A"), f64::NAN),
        (one("B", "B", "B"), 1.0),
        (one("C", "C", "C"), f64::INFINITY),
        (one("D", "D", "D"), 0.0),
        (one("E", "E", "E"), -0.0),
        (one("F", "F", "F"), -1.0),
        (one("G", "G", "G"), f64::NEG_INFINITY),
        (one("H", "H", "H"), -f64::NAN),
    ];
    let mut expected: Vec<(String, f64)> = rows.iter().map(|(k, v)| (k.to_string(), *v)).collect();
    expected.sort_by(|a, b| a.1.total_cmp(&b.1));
    let sorted = output(vec![("S", rows)]).sort(Sort::Value);
    let got: Vec<(String, u64)> = plain(&sorted)[0].1.clone();
    let want: Vec<(String, u64)> = expected.into_iter().map(|(k, v)| (k, v.to_bits())).collect();
    assert_eq!(got, want);
    assert_eq!(got.last().unwrap().0, "AAA");
}

#[test]
fn sort_never_changes_membership() {
    for sort in [Sort::Key, Sort::Value] {
        let mut before = plain(&sample());
        let mut after = plain(&sample().sort(sort));
        for (_, rows) in before.iter_mut().chain(after.iter_mut()) {
            rows.sort();
        }
        assert_eq!(before, after);
    }
}

#[test]
fn configure_with_defaults_sorts_by_key() {
    let configured = sample().configure(&Config::default(), arithmetic);
    assert_eq!(plain(&configured), plain(&sample().sort(Sort::Key)));
}

#[test]
fn configure_runs_bound_group_pattern_and_sort_in_that_order() {
    let config = Config {
        bound: Bound::Excluded(value(1.0)),
        composition: Some(Composition::PositionalSpecie),
        pattern: Pattern::new([Some("C".to_string()), None, None]),
        sort: Some(Sort::Value),
    };
    let configured = sample().configure(&config, arithmetic);
    assert_eq!(plain(&configured), expect(vec![("One", vec![("ABC, CBA", 5.0)])]));
    let config = Config { bound: Bound::Unbounded, ..config };
    let configured = sample().configure(&config, arithmetic);
    assert_eq!(plain(&configured), expect(vec![("Two", vec![("ABC, CBA", 0.5)]), ("One", vec![("ABC, CBA", 6.0)])]).into_iter().rev().collect::<Vec<_>>());
}

#[test]
fn configure_by_positional_type_groups_as_by_positional_specie() {
    let by_type = Config { composition: Some(Composition::PositionalType), ..Config::default() };
    let by_specie = Config { composition: Some(Composition::PositionalSpecie), ..Config::default() };
    assert_eq!(plain(&sample().configure(&by_type, arithmetic)), plain(&sample().configure(&by_specie, arithmetic)));
    assert_eq!(
        plain(&sample().configure(&by_type, arithmetic)),
        expect(vec![
            ("One", vec![("AAA", 3.0), ("ABC, CBA", 6.0), ("BBB", 1.0)]),
            ("Two", vec![("ABC, CBA", 0.5), ("BAB", 0.25)]),
        ])
    );
}

#[test]
fn configure_counts_a_symmetric_triple_once() {
    let config = Config { composition: Some(Composition::PositionalSpecie), ..Config::default() };
    let configured = output(vec![("S", vec![(one("A", "B", "A"), 2.0), (one("A", "B", "C"), 1.0)])]).configure(&config, arithmetic);
    assert_eq!(plain(&configured), expect(vec![("S", vec![("ABA", 2.0), ("ABC, CBA", 1.0)])]));
}

#[test]
fn configure_on_a_derived_composition() {
    let input = Input::new(OrderedMap::from_entries(vec![(
        specie("SpeciesA"),
        OrderedMap::from_entries(vec![
            ("16:0".to_string(), vec![value(30.0), value(10.0), value(23.33)]),
            ("18:1".to_string(), vec![value(70.0), value(90.0), value(76.67)]),
        ]),
    )]));
    let config = Config {
        bound: Bound::Included(value(1.0)),
        composition: Some(Composition::PositionalSpecie),
        pattern: Pattern::new([None, Some("18:1".to_string()), None]),
        sort: Some(Sort::Value),
    };
    let configured = input.output(arithmetic).configure(&config, arithmetic);
    let rows = &configured.to_vec()[0].1;
    let keys: Vec<String> = rows.iter().map(|(k, _)| k.to_string()).collect();
    assert_eq!(keys, vec!["16:018:116:0", "16:018:118:1, 18:118:116:0", "18:118:118:1"]);
    assert_eq!(number(rows[0].1), 30.0 * 90.0 * 30.0 * 0.0001);
    assert_eq!(number(rows[1].1), 30.0 * 90.0 * 70.0 * 0.0001 + 70.0 * 90.0 * 30.0 * 0.0001);
    assert_eq!(number(rows[2].1), 70.0 * 90.0 * 70.0 * 0.0001);
}

#[test]
fn totals_and_counts_of_a_species() {
    let out = sample();
    let (_, rows) = out.get_index(0);
    assert_eq!(rows.len(), 4);
    assert_eq!(number(total(rows, value(0.0), arithmetic)), 10.0);
    let (_, rows) = out.get_index(1);
    assert_eq!(number(total(rows, value(0.0), arithmetic)), 0.75);
    let none = output(vec![("S", vec![])]);
    assert_eq!(number(total(none.get_index(0).1, value(7.0), arithmetic)), 7.0);
}

#[test]
fn species_and_sets_of_a_composition() {
    let out = sample();
    assert_eq!(out.species(), vec![specie("One"), specie("Two")]);
    assert_eq!(
        out.tags(),
        vec![one("A", "B", "C"), one("C", "B", "A"), one("A", "A", "A"), one("B", "B", "B"), one("B", "A", "B")]
    );
    assert_eq!(out.find(&specie("Two")), Some(1));
    assert_eq!(out.find(&specie("Three")), None);
    assert_eq!(plain(&out.clone()), plain(&out));
}

fn scrambled(n: usize) -> Vec<(Tags, f64)> {
    let mut state: u64 = 0x2545_f491_4f6c_dd1d;
    let mut rows = Vec::new();
    for i in 0..n {
        state = state.wrapping_mul(6364136223846793005).wrapping_add(1442695040888963407);
        let a = format!("{:03}", (state >> 33) % 1000);
        let quantity = match (state >> 20) % 7 {
            0 => f64::NAN,
            1 => -0.0,
            2 => 0.0,
            k => k as f64 * 0.5,
        };
        rows.push((one(&a, &format!("{i}"), "x"), quantity));
    }
    rows
}

#[test]
fn sort_by_value_agrees_with_a_stable_sort_by_the_total_order() {
    for n in [0usize, 1, 2, 3, 7, 64, 257] {
        let rows = scrambled(n);
        let mut expected: Vec<(String, u64)> = rows.iter().map(|(k, v)| (k.to_string(), v.to_bits())).collect();
        expected.sort_by(|a, b| f64::from_bits(a.1).total_cmp(&f64::from_bits(b.1)));
        let sorted = output(vec![("S", rows)]).sort(Sort::Value);
        assert_eq!(plain(&sorted)[0].1, expected);
    }
}

#[test]
fn sort_by_key_agrees_with_the_order_of_the_sets() {
    for n in [0usize, 1, 2, 3, 7, 64, 257] {
        let rows = scrambled(n);
        let mut expected: Vec<(Tags, u64)> = rows.iter().map(|(k, v)| (k.clone(), v.to_bits())).collect();
        expected.sort_by(|a, b| a.0.cmp(&b.0));
        let sorted = output(vec![("S", rows)]).sort(Sort::Key);
        let got: Vec<(Tags, u64)> = sorted.to_vec()[0].1.iter().map(|(k, v)| (k.clone(), v.to_bits())).collect();
        assert_eq!(got, expected);
    }
}

#[test]
fn sets_with_the_same_text_but_other_names_are_told_apart() {
    let out = output(vec![
        ("One", vec![(one("AB", "", "C"), 1.0), (one("A", "B", "C"), 2.0)]),
        ("Two", vec![(one("A", "B", "C"), 3.0), (one("AB", "", "C"), 4.0), (one("A", "", "BC"), 5.0)]),
    ]);
    assert_eq!(out.tags(), vec![one("AB", "", "C"), one("A", "B", "C"), one("A", "", "BC")]);
    assert_eq!(Output::default().tags(), Vec::<Tags>::new());
}
