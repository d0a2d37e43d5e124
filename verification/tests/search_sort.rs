use cthulhu::filtering::{rows_eq, rows_eq_any, rows_eq_first, rows_ne, rows_ne_first};
use cthulhu::table::Table;

fn agents() -> Table {
    let mut table = Table::new();
    table.add_column("Agent".to_string());
    table.add_column("Duration".to_string());
    table.add_row(vec!["Alice".to_string(), "10".to_string()]);
    table.add_row(vec!["Bob".to_string(), "20".to_string()]);
    table.add_row(vec!["Alice".to_string(), "10".to_string()]);
    table.add_row(vec!["Carol".to_string(), "05".to_string()]);
    table
}

#[test]
fn search_eq_returns_exactly_the_matches() {
    let table = agents();
    let mut hits = table.search_eq("Agent", vec!["Alice"]);
    assert_eq!(hits.len(), 2);
    hits = table.sort_rows_by_column(hits, "Duration");
    for row in &hits {
        assert_eq!(row[0], "Alice");
        assert_eq!(row[1], "10");
    }
    assert!(table.search_eq("Agent", vec!["Mallory"]).is_empty());
}

#[test]
fn search_eq_unknown_column_is_empty() {
    let table = agents();
    assert!(table.search_eq("NoSuchColumn", vec!["Alice"]).is_empty());
}

#[test]
fn search_ne_returns_the_complement() {
    let table = agents();
    let hits = table.search_ne("Agent", vec!["Alice"]);
    assert_eq!(hits.len(), 2);
    for row in &hits {
        assert!(row[0] == "Bob" || row[0] == "Carol");
    }
}

#[test]
fn search_contains_matches_substrings() {
    let table = agents();
    let hits = table.search_rows_contains("Agent", vec!["li"]);
    assert_eq!(hits.len(), 2);
    for row in &hits {
        assert_eq!(row[0], "Alice");
    }
    // an empty needle is inside everything
    assert_eq!(table.search_rows_contains("Agent", vec![""]).len(), 4);
    assert!(table.search_rows_contains("Agent", vec!["xyz"]).is_empty());
}

#[test]
fn search_never_returns_more_rows_than_stored() {
    let table = agents();
    let hits = table.search_eq("Duration", vec!["10", "20", "05"]);
    assert!(hits.len() <= table.len());
    assert_eq!(hits.len(), 4);
}

#[test]
fn filtering_finds_first_and_any() {
    let table = agents();
    let rows = table.get_all_rows();
    let first = rows_eq_first(&rows, 0, vec!["Alice", "Bob"]).unwrap();
    // "Alice" at position 0 is the first match in input order
    assert_eq!(first[0], "Alice");
    assert_eq!(first[1], "10");
    let any = rows_eq_any(&rows, 0, vec!["Bob"]).unwrap();
    assert_eq!(any[0], "Bob");
    assert!(rows_eq_first(&rows, 0, vec!["Mallory"]).is_none());
    assert!(rows_eq_any(&rows, 0, vec!["Mallory"]).is_none());
    let ne_first = rows_ne_first(&rows, 0, vec!["Alice"]).unwrap();
    assert_eq!(ne_first[0], "Bob");
    let kept = rows_eq(&rows, 1, vec!["10"]);
    assert_eq!(kept.len(), 2);
    let dropped = rows_ne(&rows, 1, vec!["10"]);
    assert_eq!(dropped.len(), 2);
}

#[test]
fn sort_orders_by_column_lexicographically() {
    let table = agents();
    let rows = table.get_all_rows();
    let sorted = table.sort_rows_by_column(rows, "Duration");
    assert_eq!(sorted.len(), 4);
    let durations: Vec<&str> = sorted.iter().map(|r| r[1].as_str()).collect();
    assert_eq!(durations, vec!["05", "10", "10", "20"]);
}

#[test]
fn sort_puts_short_rows_first() {
    let mut table = Table::new();
    table.add_column("a".to_string());
    table.add_column("b".to_string());
    table.add_row(vec!["x".to_string(), "zz".to_string()]);
    // a short row resolves the missing cell as the empty string
    table.add_row(vec!["y".to_string()]);
    let sorted = table.sort_rows_by_column(table.get_all_rows(), "b");
    assert_eq!(sorted[0], vec!["y".to_string()]);
    assert_eq!(sorted[1], vec!["x".to_string(), "zz".to_string()]);
}

#[test]
fn sort_with_unknown_column_keeps_the_order() {
    let table = agents();
    let rows = table.get_all_rows();
    let sorted = table.sort_rows_by_column(rows.clone(), "NoSuchColumn");
    assert_eq!(sorted, rows);
}

#[test]
fn sort_by_column_reorders_the_table_in_place() {
    let mut table = agents();
    table.sort_by_column("Duration");
    let rows = table.get_all_rows();
    let durations: Vec<&str> = rows.iter().map(|r| r[1].as_str()).collect();
    assert_eq!(durations, vec!["05", "10", "10", "20"]);
    // rows keep their keys: Carol was inserted fourth
    assert_eq!(table.get_row(4).unwrap()[0], "Carol");
    let before = table.get_all_rows();
    table.sort_by_column("NoSuchColumn");
    assert_eq!(table.get_all_rows(), before);
}

#[test]
fn sort_is_stable_for_equal_keys() {
    let mut table = Table::new();
    table.add_column("k".to_string());
    table.add_column("tag".to_string());
    table.add_row(vec!["same".to_string(), "first".to_string()]);
    table.add_row(vec!["same".to_string(), "second".to_string()]);
    let sorted = table.sort_rows_by_column(table.get_all_rows(), "k");
    assert_eq!(sorted[0][1], "first");
    assert_eq!(sorted[1][1], "second");
}
