use cthulhu::table::{ShardID, Table, TableError};

fn two_by_two() -> Table {
    let mut table = Table::new();
    table.add_column("Agent".to_string());
    table.add_column("Duration".to_string());
    table.add_row(vec!["Alice".to_string(), "10".to_string()]);
    table.add_row(vec!["Bob".to_string(), "20".to_string()]);
    table
}

#[test]
fn byte_round_trip_preserves_observable_state() {
    let table = two_by_two();
    let bytes = table.save_to_bytes();
    let back = Table::read_from_bytes(&bytes).unwrap();
    assert_eq!(back.len(), 2);
    assert_eq!(back.latest_key(), 2);
    assert_eq!(back.shard_id(), None);
    assert_eq!(back.get_columns(), &vec!["Agent".to_string(), "Duration".to_string()]);
    assert_eq!(back.get_row(1).unwrap(), &vec!["Alice".to_string(), "10".to_string()]);
    assert_eq!(back.get_row(2).unwrap(), &vec!["Bob".to_string(), "20".to_string()]);
    // timestamps survive too
    let orig = table.get_data();
    let read = back.get_data();
    for i in 0..orig.len() {
        assert_eq!(orig[i].timestamp, read[i].timestamp);
        assert_eq!(orig[i].key, read[i].key);
    }
}

#[test]
fn byte_round_trip_keeps_shard_tag() {
    let table = two_by_two();
    let shards = table.to_shards(2).unwrap();
    let shard = &shards[1];
    let bytes = shard.save_to_bytes();
    let back = Table::read_from_bytes(&bytes).unwrap();
    assert_eq!(back.shard_id(), Some(ShardID { id: 2, shards: 2 }));
    assert_eq!(back.len(), shard.len());
}

#[test]
fn byte_round_trip_keeps_unicode_cells() {
    let mut table = Table::new();
    table.add_column("wort".to_string());
    table.add_row(vec!["süß — naïve 🐙".to_string()]);
    let bytes = table.save_to_bytes();
    let back = Table::read_from_bytes(&bytes).unwrap();
    assert_eq!(back.get_row(1).unwrap()[0], "süß — naïve 🐙");
}

#[test]
fn corrupt_bytes_are_refused() {
    let garbage: Vec<u8> = vec![9, 9, 9];
    match Table::read_from_bytes(&garbage) {
        Ok(_) => panic!("garbage must not decode"),
        Err(e) => {
            assert_eq!(e, TableError::CorruptBytes);
            assert_eq!(e.describe(), "byte buffer does not hold a table");
        },
    }
}

#[test]
fn trailing_bytes_are_refused() {
    let table = two_by_two();
    let mut bytes = table.save_to_bytes();
    bytes.push(0);
    match Table::read_from_bytes(&bytes) {
        Ok(_) => panic!("trailing bytes must not decode"),
        Err(e) => assert_eq!(e, TableError::CorruptBytes),
    }
}

#[test]
fn truncated_bytes_are_refused() {
    let table = two_by_two();
    let mut bytes = table.save_to_bytes();
    bytes.pop();
    match Table::read_from_bytes(&bytes) {
        Ok(_) => panic!("truncated bytes must not decode"),
        Err(e) => assert_eq!(e, TableError::CorruptBytes),
    }
}

#[test]
fn empty_table_round_trips() {
    let table = Table::new();
    let bytes = table.save_to_bytes();
    let back = Table::read_from_bytes(&bytes).unwrap();
    assert_eq!(back.len(), 0);
    assert!(back.get_columns().is_empty());
    assert_eq!(back.latest_key(), 0);
}
