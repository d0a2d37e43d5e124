use cthulhu::table::{row_eq, Table};

#[test]
fn add_column_grows_every_row_by_one_empty_cell() {
    let mut table = Table::new();
    table.add_column("a".to_string());
    table.add_row(vec!["1".to_string()]);
    table.add_row(vec!["2".to_string()]);
    let widths_before: Vec<usize> = table.get_all_rows().iter().map(|r| r.len()).collect();
    table.add_column("b".to_string());
    let rows = table.get_all_rows();
    assert_eq!(rows.len(), 2);
    for (i, row) in rows.iter().enumerate() {
        assert_eq!(row.len(), widths_before[i] + 1);
        assert_eq!(row[row.len() - 1], "");
    }
    assert_eq!(table.get_columns(), &vec!["a".to_string(), "b".to_string()]);
}

#[test]
fn add_row_infers_blank_columns_from_the_first_row() {
    let mut table = Table::new();
    table.add_row(vec!["x".to_string(), "y".to_string(), "z".to_string()]);
    assert_eq!(table.get_columns(), &vec!["".to_string(), "".to_string(), "".to_string()]);
    assert_eq!(table.latest_key(), 1);
}

#[test]
fn keys_grow_and_are_never_reused() {
    let mut table = Table::new();
    table.add_column("a".to_string());
    table.add_row(vec!["1".to_string()]);
    table.add_row(vec!["2".to_string()]);
    assert_eq!(table.latest_key(), 2);
    table.retain(Vec::new());
    assert_eq!(table.len(), 0);
    // the counter survives the purge, so the next key is fresh
    assert_eq!(table.latest_key(), 2);
    table.add_row(vec!["3".to_string()]);
    assert_eq!(table.get_row(3).unwrap(), &vec!["3".to_string()]);
    assert!(table.get_row(1).is_none());
}

#[test]
fn field_lookups_resolve_first_match() {
    let mut table = Table::new();
    table.add_column("dup".to_string());
    table.add_column("dup".to_string());
    table.add_column("other".to_string());
    assert_eq!(table.field_to_index("dup"), Some(0));
    assert_eq!(table.field_to_index("other"), Some(2));
    assert_eq!(table.field_to_index("missing"), None);
    assert_eq!(table.index_to_field(2).unwrap(), "other");
    assert!(table.index_to_field(3).is_none());
}

#[test]
fn get_and_set_value_resolve_by_column_name() {
    let mut table = Table::new();
    table.add_column("Agent".to_string());
    table.add_column("Duration".to_string());
    table.add_row(vec!["Alice".to_string(), "10".to_string()]);
    let row = table.get_row(1).unwrap().clone();
    assert_eq!(table.get_value("Duration", &row).unwrap(), "10");
    assert!(table.get_value("missing", &row).is_none());
    // a row too short to reach the column reads as absent
    let short = vec!["only".to_string()];
    assert!(table.get_value("Duration", &short).is_none());

    table.set_value("Duration", 1, "99".to_string());
    assert_eq!(table.get_value("Duration", table.get_row(1).unwrap()).unwrap(), "99");
    // unknown field: silently a no-op
    table.set_value("missing", 1, "boom".to_string());
    assert_eq!(table.get_row(1).unwrap(), &vec!["Alice".to_string(), "99".to_string()]);
    // unknown key: silently a no-op
    table.set_value("Duration", 77, "boom".to_string());
    assert_eq!(table.get_value("Duration", table.get_row(1).unwrap()).unwrap(), "99");
}

#[test]
fn rename_column_changes_the_first_match_only() {
    let mut table = Table::new();
    table.add_column("x".to_string());
    table.add_column("x".to_string());
    table.rename_column("x", "y");
    assert_eq!(table.get_columns(), &vec!["y".to_string(), "x".to_string()]);
    table.rename_column("gone", "z");
    assert_eq!(table.get_columns(), &vec!["y".to_string(), "x".to_string()]);
}

#[test]
fn retain_filters_by_value_not_identity() {
    let mut table = Table::new();
    table.add_column("Agent".to_string());
    table.add_column("Duration".to_string());
    table.add_row(vec!["Alice".to_string(), "10".to_string()]);
    table.add_row(vec!["Bob".to_string(), "20".to_string()]);
    table.add_row(vec!["Alice".to_string(), "10".to_string()]);
    let hits = table.search_eq("Agent", vec!["Alice"]);
    assert_eq!(hits.len(), 2);
    // a snapshot of just one Alice row keeps *both* Alice rows: retain
    // matches by cell contents, and the duplicates are indistinguishable
    let one_alice = vec![hits[0].clone()];
    table.retain(one_alice);
    assert_eq!(table.len(), 2);
    for row in table.get_all_rows() {
        assert_eq!(row[0], "Alice");
    }
}

#[test]
fn clone_rows_copies_cell_for_cell() {
    let mut table = Table::new();
    table.add_column("a".to_string());
    table.add_row(vec!["one".to_string()]);
    table.add_row(vec!["two".to_string()]);
    let rows = table.get_all_rows();
    let refs: Vec<&Vec<String>> = rows.iter().collect();
    let copies = table.clone_rows(refs);
    assert_eq!(copies, rows);
    assert!(row_eq(&copies[0], &rows[0]));
    assert!(!row_eq(&copies[0], &rows[1]));
}

#[test]
fn create_sub_table_projects_and_renumbers() {
    let mut table = Table::new();
    table.add_column("Agent".to_string());
    table.add_column("Date".to_string());
    table.add_column("Duration".to_string());
    table.add_row(vec!["Alice".to_string(), "01-02".to_string(), "10".to_string()]);
    table.add_row(vec!["Bob".to_string(), "02-02".to_string(), "20".to_string()]);
    let sub = table.create_sub_table(vec!["Duration", "Agent"]);
    assert_eq!(sub.get_columns(), &vec!["Duration".to_string(), "Agent".to_string()]);
    assert_eq!(sub.len(), 2);
    assert_eq!(sub.get_row(1).unwrap(), &vec!["10".to_string(), "Alice".to_string()]);
    assert_eq!(sub.get_row(2).unwrap(), &vec!["20".to_string(), "Bob".to_string()]);
    // the parent is untouched
    assert_eq!(table.get_row(1).unwrap().len(), 3);
    // an unknown requested name yields an empty cell, so every row still
    // matches the new registry's width
    let odd = table.create_sub_table(vec!["Agent", "NoSuch"]);
    assert_eq!(odd.get_columns().len(), 2);
    assert_eq!(odd.get_row(1).unwrap(), &vec!["Alice".to_string(), "".to_string()]);
}

#[test]
fn into_sub_table_replaces_schema_and_rows() {
    let mut table = Table::new();
    table.add_column("a".to_string());
    table.add_column("b".to_string());
    table.add_row(vec!["1".to_string(), "2".to_string()]);
    table.into_sub_table(vec!["b"]);
    assert_eq!(table.get_columns(), &vec!["b".to_string()]);
    assert_eq!(table.get_row(1).unwrap(), &vec!["2".to_string()]);
}

#[test]
fn row_as_map_pairs_names_with_cells() {
    let mut table = Table::new();
    table.add_column("Agent".to_string());
    table.add_column("Duration".to_string());
    table.add_row(vec!["Alice".to_string(), "10".to_string()]);
    let row = table.get_row(1).unwrap().clone();
    let pairs = table.get_row_as_map(&row);
    assert_eq!(
        pairs,
        vec![
            ("Agent".to_string(), "Alice".to_string()),
            ("Duration".to_string(), "10".to_string()),
        ]
    );
    // a cell past the registry is dropped from the map
    let long = vec!["a".to_string(), "b".to_string(), "c".to_string()];
    assert_eq!(table.get_row_as_map(&long).len(), 2);
}

#[test]
fn index_map_pairs_keys_with_rows() {
    let mut table = Table::new();
    table.add_column("a".to_string());
    table.add_row(vec!["x".to_string()]);
    table.add_row(vec!["y".to_string()]);
    let pairs = table.get_all_rows_as_index_map();
    assert_eq!(pairs.len(), 2);
    assert_eq!(pairs[0], (1, vec!["x".to_string()]));
    assert_eq!(pairs[1], (2, vec!["y".to_string()]));
}

#[test]
fn import_columns_replaces_the_registry() {
    let mut table = Table::new();
    table.add_column("old".to_string());
    table.add_row(vec!["v".to_string()]);
    let cols = vec!["new".to_string()];
    table.import_columns(&cols);
    assert_eq!(table.get_columns(), &cols);
    assert_eq!(table.len(), 1);
}
