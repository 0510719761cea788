use tag_composition::config::{Composition, Config, InputView, Io, OutputView, Sort};
use tag_composition::error::Error;
use tag_composition::position::Position;
use tag_composition::specie::Specie;
use tag_composition::tag::{Pattern, Tag, Tags};
use tag_composition::taxonomy::Taxonomy;
use tag_composition::text::{join_strings, str_eq, str_lt};
use tag_composition::triplet::{Triglyceride, Triplet};
use tag_composition::value::Bound;

fn tag(a: &str, b: &str, c: &str) -> Tag {
    Tag::new([a.to_string(), b.to_string(), c.to_string()])
}

fn pattern(a: Option<&str>, b: Option<&str>, c: Option<&str>) -> Pattern {
    Pattern::new([a.map(str::to_string), b.map(str::to_string), c.map(str::to_string)])
}

fn words() -> Vec<&'static str> {
    vec!["", "a", "A", "ab", "b", "16:0", "18:1", "18:10", "18:2", "é", "e", "z", "日本", "~", "𝄞", "\u{ffff}"]
}

#[test]
fn strings_are_ordered_as_the_standard_library_orders_them() {
    for a in words() {
        for b in words() {
            assert_eq!(str_lt(a, b), a < b);
            assert_eq!(str_eq(a, b), a == b);
        }
    }
}

#[test]
fn join_puts_the_separator_between_parts() {
    let parts = vec!["a".to_string(), "b".to_string(), "c".to_string()];
    assert_eq!(join_strings(&parts, "."), "a.b.c");
    assert_eq!(join_strings(&vec!["a".to_string()], "."), "a");
    assert_eq!(join_strings(&vec![], "."), "");
    assert_eq!(join_strings(&vec!["".to_string(), "".to_string()], ", "), ", ");
}

#[test]
fn tag_reverse_exchanges_the_outer_positions() {
    assert_eq!(tag("A", "B", "C").reverse(), tag("C", "B", "A"));
    assert_eq!(tag("A", "B", "A").reverse(), tag("A", "B", "A"));
    assert_eq!(tag("A", "B", "C").reverse().reverse(), tag("A", "B", "C"));
    assert_ne!(tag("A", "B", "C"), tag("C", "B", "A"));
}

#[test]
fn tag_is_displayed_as_its_three_names() {
    assert_eq!(tag("P", "O", "L").to_string(), "POL");
    assert_eq!(tag("16:0", "18:1", "18:2").to_string(), "16:018:118:2");
    assert_eq!(tag("", "", "").to_string(), "");
}

#[test]
fn tag_from_names_takes_three_and_fills_with_empty_names() {
    let names: Vec<String> = vec!["A".into(), "B".into(), "C".into(), "D".into()];
    assert_eq!(Tag::from_iter(&names), tag("A", "B", "C"));
    assert_eq!(Tag::from_iter(&names[..2].to_vec()), tag("A", "B", ""));
    assert_eq!(Tag::from_iter(&vec![]), tag("", "", ""));
}

#[test]
fn tag_holds_its_fatty_acids() {
    let t = tag("A", "B", "C");
    assert_eq!(t.fatty_acids(), &["A".to_string(), "B".to_string(), "C".to_string()]);
    assert_eq!(t.clone(), t);
}

#[test]
fn tags_are_ordered_position_by_position() {
    let all = vec![
        tag("", "", ""),
        tag("A", "B", "C"),
        tag("A", "B", "D"),
        tag("A", "C", "A"),
        tag("B", "A", "A"),
        tag("AB", "", ""),
        tag("a", "B", "C"),
    ];
    for x in &all {
        for y in &all {
            assert_eq!(x.lt(y), x < y);
            assert_eq!(x.same(y), x == y);
        }
    }
}

#[test]
fn pattern_without_names_matches_every_tag() {
    let any = pattern(None, None, None);
    assert!(tag("A", "B", "C").matches(&any));
    assert!(tag("", "", "").matches(&any));
    assert!(tag("x", "x", "x").matches(&Pattern::default()));
}

#[test]
fn pattern_names_must_be_at_their_positions() {
    let t = tag("A", "B", "C");
    assert!(t.matches(&pattern(Some("A"), None, None)));
    assert!(t.matches(&pattern(None, Some("B"), None)));
    assert!(t.matches(&pattern(None, None, Some("C"))));
    assert!(t.matches(&pattern(Some("A"), Some("B"), Some("C"))));
    assert!(!t.matches(&pattern(Some("C"), None, None)));
    assert!(!t.matches(&pattern(None, Some("A"), None)));
    assert!(!t.matches(&pattern(Some("A"), Some("B"), Some("A"))));
    assert!(!t.matches(&pattern(Some("C"), Some("B"), Some("A"))));
}

#[test]
fn full_pattern_matches_one_of_all_triples() {
    let names = ["A", "B", "C"];
    let p = pattern(Some("B"), Some("A"), Some("C"));
    let mut matched = 0;
    for a in names {
        for b in names {
            for c in names {
                if tag(a, b, c).matches(&p) {
                    matched += 1;
                }
            }
        }
    }
    assert_eq!(matched, 1);
}

#[test]
fn tags_set_is_sorted_and_holds_nothing_twice() {
    let set = Tags::new(vec![tag("C", "B", "A"), tag("A", "B", "C"), tag("C", "B", "A"), tag("A", "A", "A")]);
    assert_eq!(set.len(), 3);
    assert_eq!(set.get(0), &tag("A", "A", "A"));
    assert_eq!(set.get(1), &tag("A", "B", "C"));
    assert_eq!(set.get(2), &tag("C", "B", "A"));
    assert_eq!(set.members(), &vec![tag("A", "A", "A"), tag("A", "B", "C"), tag("C", "B", "A")]);
    assert_eq!(set, Tags::new(vec![tag("A", "A", "A"), tag("A", "B", "C"), tag("C", "B", "A")]));
    assert_eq!(Tags::new(vec![]).len(), 0);
    assert_eq!(Tags::singleton(tag("A", "B", "C")), Tags::new(vec![tag("A", "B", "C")]));
}

#[test]
fn tags_names_are_three_for_each_member() {
    let set = Tags::new(vec![tag("C", "B", "A"), tag("A", "B", "C")]);
    assert_eq!(set.names(), vec!["A", "B", "C", "C", "B", "A"]);
    assert_eq!(Tags::new(vec![]).names(), Vec::<String>::new());
    assert_ne!(Tags::singleton(tag("AB", "", "C")).names(), Tags::singleton(tag("A", "B", "C")).names());
}

#[test]
fn tags_set_is_displayed_with_commas() {
    let set = Tags::new(vec![tag("C", "B", "A"), tag("A", "B", "C")]);
    assert_eq!(set.to_string(), "ABC, CBA");
    assert_eq!(Tags::singleton(tag("P", "O", "L")).to_string(), "POL");
    assert_eq!(Tags::new(vec![]).to_string(), "");
}

#[test]
fn tags_sets_are_ordered_member_by_member() {
    let sets = vec![
        Tags::new(vec![]),
        Tags::singleton(tag("A", "B", "C")),
        Tags::new(vec![tag("A", "B", "C"), tag("C", "B", "A")]),
        Tags::singleton(tag("A", "B", "D")),
        Tags::singleton(tag("C", "B", "A")),
    ];
    for x in &sets {
        for y in &sets {
            assert_eq!(x.lt(y), x < y);
            assert_eq!(x.same(y), x == y);
        }
    }
}

#[test]
fn tags_with_reversed_holds_both_orientations() {
    let set = Tags::singleton(tag("A", "B", "C")).with_reversed();
    assert_eq!(set, Tags::new(vec![tag("A", "B", "C"), tag("C", "B", "A")]));
    let same = Tags::singleton(tag("A", "B", "A")).with_reversed();
    assert_eq!(same, Tags::singleton(tag("A", "B", "A")));
    assert_eq!(set.clone().with_reversed(), set);
}

#[test]
fn tags_match_when_a_member_matches() {
    let set = Tags::new(vec![tag("A", "B", "C"), tag("C", "B", "A")]);
    assert!(set.matches(&pattern(Some("C"), None, None)));
    assert!(set.matches(&pattern(Some("A"), None, Some("C"))));
    assert!(!set.matches(&pattern(Some("B"), None, None)));
    assert!(!Tags::new(vec![]).matches(&pattern(None, None, None)));
}

#[test]
fn triplet_normalize_puts_the_smaller_outer_name_first() {
    let t = |a: &str, b: &str, c: &str| Triplet([a.to_string(), b.to_string(), c.to_string()]);
    assert_eq!(t("C", "B", "A").normalize(), t("A", "B", "C"));
    assert_eq!(t("A", "B", "C").normalize(), t("A", "B", "C"));
    assert_eq!(t("A", "B", "A").normalize(), t("A", "B", "A"));
    assert_eq!(t("18:1", "16:0", "16:0").normalize(), t("16:0", "16:0", "18:1"));
}

#[test]
fn triplet_is_displayed_in_one_or_both_orientations() {
    let t = |a: &str, b: &str, c: &str| Triplet([a.to_string(), b.to_string(), c.to_string()]);
    assert_eq!(t("P", "O", "L").to_string(), "POL");
    assert_eq!(t("P", "O", "L").to_string_alternate(), "POL, LOP");
    assert_eq!(t("P", "O", "P").to_string_alternate(), "POP");
    assert_eq!(Triglyceride(["P".to_string(), "O".to_string(), "L".to_string()]).to_string(), "POL");
}

#[test]
fn specie_is_named_by_its_last_step() {
    let specie = Specie::from(vec!["Celastraceae".to_string(), "Euonymus".to_string(), "Alatus".to_string()]);
    assert_eq!(specie.to_string(), "Alatus");
    assert_eq!(specie.taxonomy("."), "Celastraceae.Euonymus.Alatus");
    assert_eq!(specie.taxonomy(" > "), "Celastraceae > Euonymus > Alatus");
    assert_eq!(Specie::new().to_string(), "");
    assert_eq!(Specie::new().taxonomy("."), "");
    assert_eq!(Specie::new(), Specie::default());
    assert!(specie.same(&specie.clone()));
    assert!(!specie.same(&Specie::new()));
}

#[test]
fn specie_from_path_writes_steps_in_title_case() {
    let path = vec!["euonymus".to_string(), "alatus_var".to_string(), "fooBar".to_string()];
    let specie = Specie::from_path(&path);
    assert_eq!(
        specie,
        Specie::from(vec!["Euonymus".to_string(), "Alatus Var".to_string(), "Foo Bar".to_string()])
    );
    assert_ne!(specie, Specie::from(path));
}

#[test]
fn taxonomy_of_a_plain_list() {
    let steps: Vec<String> = vec!["A".to_string(), "B".to_string()];
    assert_eq!(steps.taxonomy("/"), "A/B");
    assert_eq!(steps.name(), "B");
    let none: Vec<String> = vec![];
    assert_eq!(none.name(), "");
    assert_eq!(none.taxonomy("/"), "");
}

#[test]
fn positions_are_parsed_from_their_keys() {
    assert_eq!(Position::try_from("sn-123").unwrap(), Position::SnOneTwoThree);
    assert_eq!(Position::try_from("sn-13").unwrap(), Position::SnOneThree);
    assert_eq!(Position::try_from("sn-2").unwrap(), Position::SnTwo);
    assert!(matches!(Position::try_from("sn-1"), Err(Error::InvalidPosition)));
    assert!(matches!(Position::try_from(""), Err(Error::InvalidPosition)));
    assert!(matches!(Position::try_from("sn-1,2,3"), Err(Error::InvalidPosition)));
}

#[test]
fn positions_are_displayed() {
    assert_eq!(Position::SnOneTwoThree.to_string(), "sn-1,2,3");
    assert_eq!(Position::SnTwo.to_string(), "sn-2");
    assert_eq!(Position::SnOneThree.to_string(), "sn-1,3");
}

#[test]
fn composition_has_a_name_and_an_abbreviation() {
    assert_eq!(Composition::name(&None), "");
    assert_eq!(Composition::name(&Some(Composition::PositionalSpecie)), "Positional-specie composition");
    assert_eq!(Composition::name(&Some(Composition::PositionalType)), "Positional-type composition");
    assert_eq!(Composition::abbreviation(&None), "");
    assert_eq!(Composition::abbreviation(&Some(Composition::PositionalSpecie)), "PSC");
    assert_eq!(Composition::abbreviation(&Some(Composition::PositionalType)), "PTC");
}

#[test]
fn config_and_pattern_are_copied_field_by_field() {
    let config = Config {
        bound: Bound::Excluded(tag_composition::value::Value::from_bits(7)),
        composition: Some(Composition::PositionalType),
        pattern: pattern(Some("A"), None, Some("C")),
        sort: Some(Sort::Value),
    };
    let copy = config.clone();
    assert_eq!(copy.bound, config.bound);
    assert_eq!(copy.composition, config.composition);
    assert_eq!(copy.pattern.fatty_acids, config.pattern.fatty_acids);
    assert_eq!(copy.sort, config.sort);
}

#[test]
fn defaults_are_as_documented() {
    let config = Config::default();
    assert_eq!(config.bound, Bound::Unbounded);
    assert_eq!(config.composition, None);
    assert_eq!(config.sort, None);
    assert!(config.pattern.fatty_acids.iter().all(Option::is_none));
    assert_eq!(Io::default(), Io::Input);
    assert_eq!(InputView::default(), InputView::List);
    assert_eq!(OutputView::default(), OutputView::List);
    assert_eq!(Sort::default(), Sort::Key);
    assert_eq!(Sort::Key.to_string(), "Key");
    assert_eq!(Sort::Value.to_string(), "Value");
}

#[test]
fn errors_say_what_went_wrong() {
    assert_eq!(Error::InvalidPosition.to_string(), "Invalid position");
    assert_eq!(Error::MissingBytes.to_string(), "Dropped file bytes is none");
    assert_eq!(Error::InvalidUtf8.to_string(), "Dropped file bytes are not valid UTF-8");
    let error = Error::MalformedProfile {
        specie: Specie::from(vec!["A".to_string(), "B".to_string()]),
        fatty_acid: "16:0".to_string(),
    };
    assert_eq!(error.to_string(), "Malformed profile: A.B 16:0");
}
