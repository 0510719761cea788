use tag_composition::input::Input;
use tag_composition::ordered::OrderedMap;
use tag_composition::specie::Specie;
use tag_composition::value::Value;

fn value(x: f64) -> Value {
    Value::from_bits(x.to_bits())
}

fn names(map: &OrderedMap<String, u64>) -> Vec<(String, u64)> {
    map.entries().clone()
}

fn entry(key: &str, value: u64) -> (String, u64) {
    (key.to_string(), value)
}

#[test]
fn insert_appends_new_keys_and_overwrites_old_ones_in_place() {
    let mut map: OrderedMap<String, u64> = OrderedMap::new();
    assert_eq!(map.len(), 0);
    assert_eq!(map.insert("b".to_string(), 1), None);
    assert_eq!(map.insert("a".to_string(), 2), None);
    assert_eq!(map.insert("c".to_string(), 3), None);
    assert_eq!(map.insert("a".to_string(), 4), Some(2));
    assert_eq!(names(&map), vec![entry("b", 1), entry("a", 4), entry("c", 3)]);
    assert_eq!(map.len(), 3);
    assert_eq!(map.find(&"a".to_string()), Some(1));
    assert_eq!(map.find(&"z".to_string()), None);
    assert_eq!(map.get(&"c".to_string()), Some(&3));
    assert_eq!(map.get(&"z".to_string()), None);
    assert_eq!(map.get_index(0), (&"b".to_string(), &1));
}

#[test]
fn from_entries_keeps_the_first_place_and_the_last_value() {
    let map = OrderedMap::from_entries(vec![entry("x", 1), entry("y", 2), entry("x", 3), entry("z", 4), entry("y", 5)]);
    assert_eq!(names(&map), vec![entry("x", 3), entry("y", 5), entry("z", 4)]);
    assert_eq!(map.into_entries(), vec![entry("x", 3), entry("y", 5), entry("z", 4)]);
}

#[test]
fn replace_renames_a_key_in_place() {
    let mut map = OrderedMap::from_entries(vec![entry("x", 1), entry("y", 2), entry("z", 3)]);
    assert_eq!(map.replace(&"y".to_string(), "w".to_string()), Some(1));
    assert_eq!(names(&map), vec![entry("x", 1), entry("w", 2), entry("z", 3)]);
    assert_eq!(map.replace(&"y".to_string(), "v".to_string()), None);
    assert_eq!(names(&map), vec![entry("x", 1), entry("w", 2), entry("z", 3)]);
    assert_eq!(map.replace(&"z".to_string(), "y".to_string()), Some(2));
    assert_eq!(names(&map), vec![entry("x", 1), entry("w", 2), entry("y", 3)]);
    assert_eq!(map.replace(&"x".to_string(), "y".to_string()), None);
    assert_eq!(map.replace(&"x".to_string(), "x".to_string()), None);
    assert_eq!(names(&map), vec![entry("x", 1), entry("w", 2), entry("y", 3)]);
}

fn sheet() -> Input {
    let mut input = Input::new(OrderedMap::new());
    let a = Specie::from(vec!["A".to_string()]);
    let b = Specie::from(vec!["B".to_string()]);
    input.record(a.clone(), "18:1".to_string(), vec![value(1.0), value(2.0), value(3.0)]);
    input.record(a.clone(), "16:0".to_string(), vec![value(1.0), value(2.0), value(3.0)]);
    input.record(b.clone(), "16:0".to_string(), vec![value(1.0), value(2.0), value(3.0)]);
    input.record(b.clone(), "18:2".to_string(), vec![value(1.0), value(2.0), value(3.0)]);
    input.record(a.clone(), "18:2".to_string(), vec![value(1.0), value(2.0), value(3.0)]);
    input.record(a, "18:1".to_string(), vec![value(9.0), value(9.0), value(9.0)]);
    input
}

#[test]
fn record_fills_species_and_fatty_acids_in_the_order_they_come() {
    let input = sheet();
    assert_eq!(input.len(), 2);
    assert_eq!(input.species(), vec![Specie::from(vec!["A".to_string()]), Specie::from(vec!["B".to_string()])]);
    let (specie, profiles) = input.get_index(0);
    assert_eq!(specie.to_string(), "A");
    let keys: Vec<String> = profiles.entries().iter().map(|(k, _)| k.clone()).collect();
    assert_eq!(keys, vec!["18:1", "16:0", "18:2"]);
    assert_eq!(profiles.get(&"18:1".to_string()), Some(&vec![value(9.0), value(9.0), value(9.0)]));
    let (_, profiles) = input.get_index(1);
    let keys: Vec<String> = profiles.entries().iter().map(|(k, _)| k.clone()).collect();
    assert_eq!(keys, vec!["16:0", "18:2"]);
}

#[test]
fn fatty_acids_are_listed_once_where_they_first_occur() {
    assert_eq!(sheet().fatty_acids(), vec!["18:1", "16:0", "18:2"]);
    assert_eq!(Input::new(OrderedMap::new()).fatty_acids(), Vec::<String>::new());
}

#[test]
fn small_inputs_are_derivable() {
    assert!(sheet().derivable());
    assert!(Input::new(OrderedMap::new()).derivable());
}

fn keys_of(input: &Input, at: usize) -> Vec<String> {
    input.get_index(at).1.entries().iter().map(|(k, _)| k.clone()).collect()
}

#[test]
fn remove_puts_the_last_entry_in_the_place_of_the_one_that_left() {
    let mut map = OrderedMap::from_entries(vec![entry("x", 1), entry("y", 2), entry("z", 3), entry("w", 4)]);
    assert_eq!(map.remove(&"y".to_string()), Some(2));
    assert_eq!(names(&map), vec![entry("x", 1), entry("w", 4), entry("z", 3)]);
    assert_eq!(map.remove(&"y".to_string()), None);
    assert_eq!(map.remove(&"z".to_string()), Some(3));
    assert_eq!(names(&map), vec![entry("x", 1), entry("w", 4)]);
    assert_eq!(map.replace_value(1, 9), 4);
    assert_eq!(names(&map), vec![entry("x", 1), entry("w", 9)]);
}

#[test]
fn species_can_be_put_found_and_taken_out() {
    let mut input = sheet();
    let a = Specie::from(vec!["A".to_string()]);
    let b = Specie::from(vec!["B".to_string()]);
    let c = Specie::from(vec!["C".to_string()]);
    assert_eq!(input.find(&b), Some(1));
    assert_eq!(input.find(&c), None);
    assert!(input.get(&c).is_none());
    assert_eq!(input.get(&b).unwrap().len(), 2);
    assert!(input.insert(c.clone(), OrderedMap::new()).is_none());
    assert_eq!(input.species(), vec![a.clone(), b.clone(), c.clone()]);
    let before = input.insert(a.clone(), OrderedMap::new()).unwrap();
    assert_eq!(before.len(), 3);
    assert_eq!(input.get(&a).unwrap().len(), 0);
    assert_eq!(input.species(), vec![a.clone(), b.clone(), c.clone()]);
    assert_eq!(input.remove(&a).unwrap().len(), 0);
    assert_eq!(input.species(), vec![c.clone(), b.clone()]);
    assert!(input.remove(&a).is_none());
    assert_eq!(input.len(), 2);
}

#[test]
fn fatty_acids_can_be_taken_out_renamed_and_set() {
    let mut input = sheet();
    let a = Specie::from(vec!["A".to_string()]);
    let c = Specie::from(vec!["C".to_string()]);
    assert_eq!(input.remove_fatty_acid(&a, &"18:1".to_string()), Some(vec![value(9.0), value(9.0), value(9.0)]));
    assert_eq!(keys_of(&input, 0), vec!["18:2", "16:0"]);
    assert_eq!(input.remove_fatty_acid(&a, &"18:1".to_string()), None);
    assert_eq!(input.remove_fatty_acid(&c, &"16:0".to_string()), None);
    assert_eq!(input.replace_fatty_acid(&a, &"16:0".to_string(), "20:0".to_string()), Some(1));
    assert_eq!(keys_of(&input, 0), vec!["18:2", "20:0"]);
    assert_eq!(input.replace_fatty_acid(&a, &"18:2".to_string(), "20:0".to_string()), None);
    assert_eq!(input.replace_fatty_acid(&a, &"16:0".to_string(), "22:0".to_string()), None);
    assert_eq!(input.replace_fatty_acid(&c, &"18:2".to_string(), "22:0".to_string()), None);
    assert_eq!(keys_of(&input, 0), vec!["18:2", "20:0"]);
    assert!(input.set_value(&a, &"20:0".to_string(), 2, value(7.5)));
    assert_eq!(input.get(&a).unwrap().get(&"20:0".to_string()), Some(&vec![value(1.0), value(2.0), value(7.5)]));
    assert!(!input.set_value(&a, &"20:0".to_string(), 3, value(7.5)));
    assert!(!input.set_value(&a, &"16:0".to_string(), 0, value(7.5)));
    assert!(!input.set_value(&c, &"20:0".to_string(), 0, value(7.5)));
    assert_eq!(keys_of(&input, 1), vec!["16:0", "18:2"]);
}

#[test]
fn input_is_copied_entry_by_entry() {
    let input = sheet();
    let copy = input.clone();
    assert_eq!(copy.species(), input.species());
    for at in 0..input.len() {
        assert_eq!(copy.get_index(at).1.entries(), input.get_index(at).1.entries());
    }
    assert_eq!(Input::default().len(), 0);
}
