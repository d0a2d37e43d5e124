use cthulhu::ingest::{from_records, ingest_lines, split_and_trim, trim_str};
use cthulhu::table::TableError;

#[test]
fn split_and_trim_fields() {
    let fields = split_and_trim("Agent ,  Date,Duration ", ',');
    assert_eq!(fields, vec!["Agent".to_string(), "Date".to_string(), "Duration".to_string()]);
}

#[test]
fn split_keeps_empty_fields() {
    let fields = split_and_trim(",a,,b,", ',');
    assert_eq!(
        fields,
        vec!["".to_string(), "a".to_string(), "".to_string(), "b".to_string(), "".to_string()]
    );
    // an empty line still yields one (empty) field
    assert_eq!(split_and_trim("", ','), vec!["".to_string()]);
}

#[test]
fn trim_strips_both_ends_only() {
    assert_eq!(trim_str("  a b \t"), "a b");
    assert_eq!(trim_str("ab"), "ab");
    assert_eq!(trim_str(" \t "), "");
    assert_eq!(trim_str(""), "");
}

#[test]
fn ingest_lines_builds_header_and_rows() {
    let lines = vec![
        "junk to skip".to_string(),
        "Agent, Duration".to_string(),
        "Alice , 10".to_string(),
        "Bob,20".to_string(),
    ];
    let table = ingest_lines(&lines, 1, ',').unwrap();
    assert_eq!(table.get_columns(), &vec!["Agent".to_string(), "Duration".to_string()]);
    assert_eq!(table.len(), 2);
    assert_eq!(table.get_row(1).unwrap(), &vec!["Alice".to_string(), "10".to_string()]);
    assert_eq!(table.get_row(2).unwrap(), &vec!["Bob".to_string(), "20".to_string()]);
}

#[test]
fn ingest_lines_accepts_malformed_widths() {
    let lines = vec![
        "a,b".to_string(),
        "1".to_string(),
        "1,2,3".to_string(),
    ];
    let table = ingest_lines(&lines, 0, ',').unwrap();
    assert_eq!(table.get_row(1).unwrap().len(), 1);
    assert_eq!(table.get_row(2).unwrap().len(), 3);
}

#[test]
fn ingest_lines_without_header_fails() {
    let lines = vec!["only line".to_string()];
    match ingest_lines(&lines, 5, ',') {
        Ok(_) => panic!("a skip past the end must fail"),
        Err(e) => {
            assert_eq!(e, TableError::NoHeader);
            assert_eq!(e.describe(), "no row found after skip");
        },
    }
}

#[test]
fn from_records_takes_header_and_rows_as_given() {
    let records = vec![
        vec!["skipped".to_string()],
        vec!["Agent".to_string(), "Duration".to_string()],
        vec!["Alice".to_string(), "10".to_string()],
    ];
    let table = from_records(&records, 1).unwrap();
    assert_eq!(table.get_columns(), &vec!["Agent".to_string(), "Duration".to_string()]);
    assert_eq!(table.len(), 1);
    assert_eq!(table.get_row(1).unwrap(), &vec!["Alice".to_string(), "10".to_string()]);
    match from_records(&records, 3) {
        Ok(_) => panic!("a skip past the end must fail"),
        Err(e) => assert_eq!(e, TableError::NoHeader),
    }
}

#[test]
fn ingested_data_flows_through_search() {
    // the report flow: ingest, search a column, read values back
    let lines = vec![
        "Agent,Schedule State".to_string(),
        "Alice,System Issue INC1234567".to_string(),
        "Bob,Break".to_string(),
    ];
    let table = ingest_lines(&lines, 0, ',').unwrap();
    let hits = table.search_rows_contains("Schedule State", vec!["System Issue"]);
    assert_eq!(hits.len(), 1);
    assert_eq!(table.get_value("Agent", &hits[0]).unwrap(), "Alice");
}
