use whidl::busmap::BusMap;
use whidl::simulator::Bus;

#[test]
fn test_busmap_from() {
    let b = BusMap::try_from([("a", false)]).expect("Error creating bus.");
    assert_eq!(b.get_bus(&Bus::from("a")), vec![Some(false)]);
}

fn map_of(buses: &[(&str, Vec<Option<bool>>)]) -> BusMap {
    let mut m = BusMap::new();
    for (name, bits) in buses {
        m.create_bus(name, bits.len()).unwrap();
        m.insert_option(&Bus { name: String::from(*name), range: Some(0..bits.len()) }, bits.clone());
    }
    m
}

#[test]
fn busmap_text_lists_buses_by_name() {
    let m = map_of(&[("b", vec![None, Some(false)]), ("a", vec![Some(true)])]);
    assert_eq!(m.to_string(), "a: 1\nb: ?0\n");
    assert_eq!(BusMap::default().to_string(), "");
}

#[test]
fn expected_values_are_below_the_outputs_that_contain_them() {
    let expected = map_of(&[("out", vec![Some(true)])]);
    let actual = map_of(&[("out", vec![Some(true)]), ("in", vec![Some(false)])]);
    assert!(expected <= actual);
    assert!(expected < actual);
    assert!(actual > expected);
    assert_eq!(expected.partial_cmp(&actual), Some(std::cmp::Ordering::Less));
    let same = map_of(&[("out", vec![Some(true)])]);
    assert!(expected == same);
    assert_eq!(expected.partial_cmp(&same), Some(std::cmp::Ordering::Equal));
    let wrong = map_of(&[("out", vec![Some(false)]), ("in", vec![Some(false)])]);
    assert!(!(expected <= wrong));
    assert_eq!(expected.partial_cmp(&wrong), None);
    assert!(expected != wrong);
}

#[test]
fn insert_option_writes_its_range_and_keeps_the_rest() {
    let mut m = BusMap::new();
    m.create_bus("x", 4).unwrap();
    m.create_bus("y", 1).unwrap();
    m.insert_option(&Bus { name: String::from("x"), range: Some(1..3) }, vec![Some(true), Some(false)]);
    assert_eq!(m.get_bus(&Bus { name: String::from("x"), range: Some(1..3) }), vec![Some(true), Some(false)]);
    assert_eq!(m.get_name("x"), vec![None, Some(true), Some(false), None]);
    assert_eq!(m.get_name("y"), vec![None]);
    assert_eq!(m.signals(), vec![String::from("x"), String::from("y")]);
    // An identical second creation changes nothing.
    assert!(m.create_bus("x", 4).is_ok());
    assert_eq!(m.get_name("x"), vec![None, Some(true), Some(false), None]);
    assert!(m.create_bus("x", 3).is_err());
}
