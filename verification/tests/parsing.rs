use mysql_csv::accumulate::parse_file;
use mysql_csv::header::create_header;
use mysql_csv::parse::{get_id, parse_line};
use mysql_csv::record::Rows;
use mysql_csv::Arguments;

#[test]
fn no_markers_yield_no_records() {
    let rows = parse_file(vec!["hello", "name: Alice", ""]).unwrap();
    assert_eq!(rows.len(), 0);
    let header = create_header(&rows);
    assert_eq!(header, Err("Could find enough lines"));
}

#[test]
fn two_markers_two_records() {
    let lines = vec!["*** 1. row ***", "name: Alice", "*** 12. row ***", "name: Bob"];
    let rows = parse_file(lines).unwrap();
    assert_eq!(rows.len(), 2);
    assert_eq!(rows[0].id, 1);
    assert_eq!(rows[1].id, 12);
    assert_eq!(rows[0].data, vec![("name".to_string(), "Alice".to_string())]);
    assert_eq!(rows[1].data, vec![("name".to_string(), "Bob".to_string())]);
}

#[test]
fn field_parser_joins_trimmed_segments() {
    let r = parse_line(&"a: b: c".to_string());
    assert_eq!(r, Some(("a".to_string(), "bc".to_string())));
}

#[test]
fn field_parser_no_colon_yields_nothing() {
    assert_eq!(parse_line(&"novalue".to_string()), None);
}

#[test]
fn field_parser_trims_key_and_value() {
    let r = parse_line(&"  key  :  some value  ".to_string());
    assert_eq!(r, Some(("key".to_string(), "some value".to_string())));
}

#[test]
fn field_parser_empty_value() {
    let r = parse_line(&"key:".to_string());
    assert_eq!(r, Some(("key".to_string(), "".to_string())));
}

#[test]
fn identifier_extraction() {
    assert_eq!(get_id("*** 7. row ***"), 7);
    assert_eq!(get_id("***42row***"), 42);
}

#[test]
fn identifier_without_digits_is_zero() {
    assert_eq!(get_id("*** row ***"), 0);
    assert_eq!(get_id(""), 0);
}

#[test]
fn identifier_wraps_at_sixteen_bits() {
    assert_eq!(get_id("65536"), 0);
    assert_eq!(get_id("65537"), 1);
}

#[test]
fn lines_before_first_marker_are_dropped() {
    let rows = parse_file(vec!["name: X", "*** 1. row ***", "name: Y"]).unwrap();
    assert_eq!(rows.len(), 1);
    assert_eq!(rows[0].data, vec![("name".to_string(), "Y".to_string())]);
}

#[test]
fn later_field_overwrites_earlier_one() {
    let mut row = Rows::new(3);
    row.add_line("a: 1".to_string());
    row.add_line("b: 2".to_string());
    row.add_line("a: 9".to_string());
    assert_eq!(
        row.data,
        vec![("a".to_string(), "9".to_string()), ("b".to_string(), "2".to_string())]
    );
    assert_eq!(row.get(&"a".to_string()), Some(&"9".to_string()));
    assert_eq!(row.get(&"c".to_string()), None);
}

#[test]
fn lines_without_colon_are_dropped_from_record() {
    let mut row = Rows::new(1);
    row.add_line("just text".to_string());
    assert_eq!(row.data.len(), 0);
}

#[test]
fn wrong_argument_counts_are_rejected() {
    let two = vec!["prog".to_string(), "in.txt".to_string()];
    assert!(matches!(Arguments::new(&two), Err("Wrong arguments")));
    let four = vec![
        "prog".to_string(),
        "in.txt".to_string(),
        "out.csv".to_string(),
        "extra".to_string(),
    ];
    assert!(matches!(Arguments::new(&four), Err("Wrong arguments")));
    let three = vec!["prog".to_string(), "in.txt".to_string(), "out.csv".to_string()];
    let args = Arguments::new(&three).unwrap();
    assert_eq!(args.input, "in.txt");
    assert_eq!(args.output, "out.csv");
}

#[test]
fn one_record_is_not_enough_for_a_header() {
    let rows = parse_file(vec!["*** 1. row ***", "name: Alice"]).unwrap();
    assert_eq!(create_header(&rows), Err("Could find enough lines"));
}

#[test]
fn header_excludes_identifier_keys() {
    let mut first = Rows::new(1);
    first.data.push(("id".to_string(), "1".to_string()));
    first.data.push(("name".to_string(), "Alice".to_string()));
    first.data.push(("id ".to_string(), "x".to_string()));
    first.data.push(("age".to_string(), "30".to_string()));
    let second = Rows::new(2);
    let header = create_header(&vec![first, second]).unwrap();
    assert_eq!(header, vec!["name".to_string(), "age".to_string()]);
}
