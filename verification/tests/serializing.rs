use mysql_csv::accumulate::parse_file;
use mysql_csv::csvout::{neutralize_commas, render_csv, render_record};
use mysql_csv::header::create_header;
use mysql_csv::record::Rows;

fn record_with(id: u16, fields: &[(&str, &str)]) -> Rows {
    let mut row = Rows::new(id);
    for (k, v) in fields {
        row.data.push((k.to_string(), v.to_string()));
    }
    row
}

#[test]
fn commas_become_pipe_space() {
    assert_eq!(neutralize_commas(&"a,b".to_string()), "a| b");
    assert_eq!(neutralize_commas(&"a,b,,c".to_string()), "a| b| | c");
    assert_eq!(neutralize_commas(&"plain".to_string()), "plain");
}

#[test]
fn serializer_replaces_commas_in_values() {
    let header = vec!["name".to_string()];
    let rows = vec![record_with(1, &[("name", "a,b")])];
    let text = render_csv(&header, &rows);
    assert_eq!(text, "name\na| b\n");
}

#[test]
fn serializer_writes_space_for_missing_field() {
    let header = vec!["name".to_string(), "age".to_string()];
    let rows = vec![record_with(1, &[("name", "Alice")])];
    let cells = render_record(&header, &rows[0]);
    assert_eq!(cells, vec!["Alice".to_string(), " ".to_string()]);
    let text = render_csv(&header, &rows);
    assert_eq!(text, "name,age\nAlice, \n");
}

#[test]
fn serializer_quotes_fields_with_quotes() {
    let header = vec!["quote".to_string()];
    let rows = vec![record_with(1, &[("quote", "he said \"hi\"")])];
    let text = render_csv(&header, &rows);
    assert_eq!(text, "quote\n\"he said \"\"hi\"\"\"\n");
}

#[test]
fn serializer_row_order_matches_record_order() {
    let header = vec!["n".to_string()];
    let rows = vec![
        record_with(1, &[("n", "first")]),
        record_with(2, &[("n", "second")]),
        record_with(3, &[("n", "third")]),
    ];
    let text = render_csv(&header, &rows);
    assert_eq!(text, "n\nfirst\nsecond\nthird\n");
}

#[test]
fn empty_rows_are_written_as_quoted_empty_field() {
    let header: Vec<String> = vec![];
    let rows = vec![record_with(1, &[("name", "Alice")])];
    let text = render_csv(&header, &rows);
    assert_eq!(text, "\"\"\n\"\"\n");
}

#[test]
fn header_names_with_commas_are_quoted() {
    let header = vec!["a,b".to_string()];
    let rows = vec![record_with(1, &[("a,b", "v")])];
    let text = render_csv(&header, &rows);
    assert_eq!(text, "\"a,b\"\nv\n");
}

#[test]
fn round_trip_reproduces_substituted_values() {
    let lines = vec![
        "*** 1. row ***",
        "name: Eve, the first",
        "city: Oslo",
        "*** 2. row ***",
        "name: Bob",
        "city: Paris, France",
    ];
    let rows = parse_file(lines).unwrap();
    let header = create_header(&rows).unwrap();
    let text = render_csv(&header, &rows);

    let mut reader = csv::Reader::from_reader(text.as_bytes());
    let got_header: Vec<String> =
        reader.headers().unwrap().iter().map(|h| h.to_string()).collect();
    assert_eq!(got_header, header);

    let records: Vec<Vec<String>> = reader
        .records()
        .map(|r| r.unwrap().iter().map(|f| f.to_string()).collect())
        .collect();
    assert_eq!(records.len(), 2);
    let name_pos = header.iter().position(|h| h == "name").unwrap();
    let city_pos = header.iter().position(|h| h == "city").unwrap();
    // substituted values come back, the original commas do not
    assert_eq!(records[0][name_pos], "Eve|  the first");
    assert_eq!(records[0][city_pos], "Oslo");
    assert_eq!(records[1][name_pos], "Bob");
    assert_eq!(records[1][city_pos], "Paris|  France");
}

#[test]
fn full_pipeline_from_dump_to_csv() {
    let lines = vec![
        "mysql> select * from people",
        "*** 1. row ***",
        "id: 1",
        "name: Alice",
        "*** 2. row ***",
        "id: 2",
        "name: Bob",
    ];
    let rows = parse_file(lines).unwrap();
    assert_eq!(rows.len(), 2);
    let header = create_header(&rows).unwrap();
    assert_eq!(header, vec!["name".to_string()]);
    let text = render_csv(&header, &rows);
    assert_eq!(text, "name\nAlice\nBob\n");
}
