use whidl::error::ErrorKind;
use whidl::parser::{Identifier, PortDirection};
use whidl::simulator::Port;
use whidl::strmap::StrMap;
use whidl::test_parser::{InputValue, NumberSystem, OutputFormat, TestScript};
use whidl::busmap::BusMap;
use whidl::test_script::{bitvec_to_vecbool, compare_outputs, output_matches, parse_i16, read_cmp, set_input, test_input_to_bitvec};

fn column(name: &str, number_system: NumberSystem) -> OutputFormat {
    OutputFormat { port_name: String::from(name), number_system, space_before: 1, output_columns: 1, space_after: 1 }
}

fn script(output_list: Vec<OutputFormat>) -> TestScript {
    TestScript {
        path: None,
        hdl_file: String::from("And.hdl"),
        output_file: String::from("And.out"),
        compare_file: String::from("And.cmp"),
        output_list,
        steps: vec![],
        generics: vec![],
    }
}

fn ports(widths: &[(&str, usize)]) -> StrMap<Port> {
    let mut m = StrMap::new();
    for (name, width) in widths {
        m.insert(
            String::from(*name),
            Port { name: Identifier::from(name), width: *width, direction: PortDirection::In },
        );
    }
    m
}

fn lines(text: &[&str]) -> Vec<String> {
    text.iter().map(|l| String::from(*l)).collect()
}

fn input(number_system: NumberSystem, value: &str) -> InputValue {
    InputValue { number_system, value: String::from(value) }
}

#[test]
fn decimal_inputs_parse_as_i16() {
    assert_eq!(parse_i16("0"), Some(0));
    assert_eq!(parse_i16("-1"), Some(-1));
    assert_eq!(parse_i16("+5"), Some(5));
    assert_eq!(parse_i16("32767"), Some(32767));
    assert_eq!(parse_i16("-32768"), Some(-32768));
    assert_eq!(parse_i16("32768"), None);
    assert_eq!(parse_i16("-32769"), None);
    assert_eq!(parse_i16("1a"), None);
    assert_eq!(parse_i16(""), None);
    assert_eq!(parse_i16("-"), None);
}

#[test]
fn decimal_input_is_a_sixteen_bit_word_most_significant_first() {
    let five = test_input_to_bitvec(&input(NumberSystem::Decimal, "5"));
    let mut expected = vec![false; 16];
    expected[13] = true;
    expected[15] = true;
    assert_eq!(five, expected);
    let minus_one = test_input_to_bitvec(&input(NumberSystem::Decimal, "-1"));
    assert_eq!(minus_one, vec![true; 16]);
    let min = test_input_to_bitvec(&input(NumberSystem::Decimal, "-32768"));
    let mut expected_min = vec![false; 16];
    expected_min[0] = true;
    assert_eq!(min, expected_min);
}

#[test]
fn binary_input_keeps_its_digits() {
    assert_eq!(test_input_to_bitvec(&input(NumberSystem::Binary, "101")), vec![true, false, true]);
    assert_eq!(test_input_to_bitvec(&input(NumberSystem::Binary, "")), Vec::<bool>::new());
}

#[test]
fn bits_become_known_values() {
    assert_eq!(bitvec_to_vecbool(vec![true, false]), vec![Some(true), Some(false)]);
}

#[test]
fn compare_file_lines_give_expected_values() {
    let ts = script(vec![
        column("a", NumberSystem::Binary),
        column("b", NumberSystem::Binary),
        column("out", NumberSystem::Binary),
    ]);
    let p = ports(&[("a", 1), ("b", 1), ("out", 1)]);
    let cmp = lines(&["|   a   |   b   |  out  |", "|   0   |   1   |   0   |", "", "|   1   |   1   |   1   |"]);
    let maps = read_cmp(&cmp, "\"And.cmp\"", &ts, &p).ok().unwrap();
    assert_eq!(maps.len(), 2);
    assert_eq!(maps[0].get_name("a"), vec![Some(false)]);
    assert_eq!(maps[0].get_name("b"), vec![Some(true)]);
    assert_eq!(maps[0].get_name("out"), vec![Some(false)]);
    assert_eq!(maps[1].get_name("out"), vec![Some(true)]);
    assert_eq!(maps[0].signals(), vec![String::from("a"), String::from("b"), String::from("out")]);
}

#[test]
fn compare_values_keep_the_width_of_their_port() {
    let ts = script(vec![column("in", NumberSystem::Decimal), column("out", NumberSystem::Binary)]);
    let p = ports(&[("in", 4), ("out", 2)]);
    let cmp = lines(&["| in | out |", "| 5 | 1101 |", "| -1 | 1 |"]);
    let maps = read_cmp(&cmp, "\"x.cmp\"", &ts, &p).ok().unwrap();
    assert_eq!(maps[0].get_name("in"), vec![Some(false), Some(true), Some(false), Some(true)]);
    assert_eq!(maps[0].get_name("out"), vec![Some(false), Some(true)]);
    assert_eq!(maps[1].get_name("in"), vec![Some(true); 4]);
    assert_eq!(maps[1].get_name("out"), vec![Some(true)]);
}

#[test]
fn wildcards_and_strings_are_not_checked() {
    let ts = script(vec![column("a", NumberSystem::Binary), column("time", NumberSystem::String)]);
    let p = ports(&[("a", 1)]);
    let cmp = lines(&["| a | time |", "| * | 1+ |"]);
    let maps = read_cmp(&cmp, "\"x.cmp\"", &ts, &p).ok().unwrap();
    assert_eq!(maps.len(), 1);
    assert_eq!(maps[0].get_width("a"), None);
    assert_eq!(maps[0].get_width("time"), None);
}

#[test]
fn empty_compare_file_is_corrupt() {
    let ts = script(vec![column("a", NumberSystem::Binary)]);
    let e = read_cmp(&vec![], "\"x.cmp\"", &ts, &ports(&[("a", 1)])).err().unwrap();
    assert_eq!(e.msg, "Corrupt cmp file. Expected more data.");
    assert!(matches!(e.kind, ErrorKind::IOError));
}

#[test]
fn short_header_is_refused() {
    let ts = script(vec![column("a", NumberSystem::Binary)]);
    let e = read_cmp(&lines(&["| |"]), "\"x.cmp\"", &ts, &ports(&[("a", 1)])).err().unwrap();
    assert_eq!(
        e.msg,
        "Header line for cmp file \"x.cmp\" is too short. The header line is the first line of the .cmp file."
    );
    assert!(matches!(e.kind, ErrorKind::IOError));
}

#[test]
fn short_line_is_refused() {
    let ts = script(vec![column("a", NumberSystem::Binary)]);
    let e = read_cmp(&lines(&["| a |", " |  "]), "\"x.cmp\"", &ts, &ports(&[("a", 1)])).err().unwrap();
    assert_eq!(e.msg, "The line | in \"x.cmp\" is too short to be correct.");
    assert!(matches!(e.kind, ErrorKind::Other));
}

#[test]
fn line_with_more_columns_than_the_output_list_is_refused() {
    let ts = script(vec![column("a", NumberSystem::Binary)]);
    let e = read_cmp(&lines(&["| a |", "| 0 | 1 |"]), "\"x.cmp\"", &ts, &ports(&[("a", 1)])).err().unwrap();
    assert_eq!(e.msg, "The line |0|1| in \"x.cmp\" contains more columns than the test script output-list.");
    assert!(matches!(e.kind, ErrorKind::Other));
}

#[test]
fn line_with_more_columns_than_the_header_is_refused() {
    let ts = script(vec![column("a", NumberSystem::Binary), column("b", NumberSystem::Binary)]);
    let e = read_cmp(&lines(&["| a |", "| 0 | 1 |"]), "\"x.cmp\"", &ts, &ports(&[("a", 1)])).err().unwrap();
    assert_eq!(e.msg, "The line |0|1| in \"x.cmp\" contains more columns than the header line.");
    assert!(matches!(e.kind, ErrorKind::Other));
}

#[test]
fn signal_missing_from_the_chip_is_refused() {
    let ts = script(vec![column("q", NumberSystem::Binary)]);
    let e = read_cmp(&lines(&["| q |", "| 0 |"]), "\"x.cmp\"", &ts, &ports(&[("a", 1)])).err().unwrap();
    assert_eq!(e.msg, "CMP / HDL mismatch. The .cmp file refers to port `q`, but the HDL file does not.");
    assert!(matches!(e.kind, ErrorKind::Other));
}

#[test]
fn set_keeps_the_lowest_bits_of_the_value() {
    let mut inputs = BusMap::new();
    set_input(&mut inputs, &String::from("in"), &input(NumberSystem::Decimal, "5"), 4);
    assert_eq!(inputs.get_name("in"), vec![Some(false), Some(true), Some(false), Some(true)]);
    set_input(&mut inputs, &String::from("in"), &input(NumberSystem::Decimal, "-1"), 4);
    assert_eq!(inputs.get_name("in"), vec![Some(true); 4]);
    set_input(&mut inputs, &String::from("b"), &input(NumberSystem::Binary, "10"), 16);
    assert_eq!(inputs.get_name("b"), vec![Some(true), Some(false)]);
}

#[test]
fn outputs_pass_where_they_hold_the_expected_values() {
    let ts = script(vec![column("a", NumberSystem::Binary)]);
    let p = ports(&[("a", 1), ("b", 1)]);
    let expected = read_cmp(&lines(&["| a |", "| 1 |", "| 0 |"]), "\"x.cmp\"", &ts, &p).ok().unwrap();
    let mut good = BusMap::new();
    set_input(&mut good, &String::from("a"), &input(NumberSystem::Binary, "1"), 1);
    set_input(&mut good, &String::from("b"), &input(NumberSystem::Binary, "0"), 1);
    assert!(output_matches(&expected[0], &good));
    assert!(!output_matches(&expected[1], &good));
    assert!(compare_outputs(&expected, &vec![good]).is_ok());
    let mut bad = BusMap::new();
    set_input(&mut bad, &String::from("a"), &input(NumberSystem::Binary, "0"), 1);
    let e = compare_outputs(&expected, &vec![bad]).err().unwrap();
    assert_eq!(e.msg, "Test failed.");
}
