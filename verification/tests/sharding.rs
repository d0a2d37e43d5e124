use cthulhu::ingest::ingest_lines;
use cthulhu::table::{ShardID, Table, TableError};

fn sample_lines() -> Vec<String> {
    let mut lines = vec![
        "report generated for february".to_string(),
        "all agents, all days".to_string(),
        "Agent, Date, Duration".to_string(),
    ];
    for i in 0..30 {
        lines.push(format!("agent{}, 2023-02-0{}, {}:1{}", i, i % 9 + 1, i % 5, i % 10));
    }
    lines
}

#[test]
fn sharding_table() {
    let table = ingest_lines(&sample_lines(), 2, ',').unwrap();
    let table_len = table.len();
    let shards = table.to_shards(14).unwrap();
    assert_eq!(shards.len(), 14);
    println!("shards");
    let recreated_table = Table::from_shards(shards).unwrap();
    let recreated_table_len = recreated_table.len();
    assert_eq!(table_len, recreated_table_len);
    println!("recreated table");
    let bytes = recreated_table.save_to_bytes();
    println!("saved table");
    let loaded_recreated_table = Table::read_from_bytes(&bytes).unwrap();
    assert_eq!(table_len, loaded_recreated_table.len());
}

#[test]
fn shard_round_trip_preserves_rows_by_key() {
    let mut table = Table::new();
    table.add_column("name".to_string());
    table.add_column("score".to_string());
    for i in 0..7 {
        table.add_row(vec![format!("p{}", i), format!("{}", i * 10)]);
    }
    // keys are 1..=7
    let shards = table.to_shards(3).unwrap();
    assert_eq!(shards.len(), 3);
    for (i, shard) in shards.iter().enumerate() {
        assert_eq!(shard.shard_id(), Some(ShardID { id: i + 1, shards: 3 }));
        // every row of a shard keeps its key residue
        for (key, _row) in shard.get_all_rows_as_index_map() {
            assert_eq!(key % 3, i);
        }
    }
    let rebuilt = Table::from_shards(shards).unwrap();
    assert_eq!(rebuilt.len(), 7);
    assert_eq!(rebuilt.shard_id(), None);
    for i in 1..=7usize {
        let row = rebuilt.get_row(i).expect("key must survive the round trip");
        assert_eq!(row[0], format!("p{}", i - 1));
        assert_eq!(row[1], format!("{}", (i - 1) * 10));
    }
}

#[test]
fn to_shards_rejects_sharded_table() {
    let mut table = Table::new();
    table.add_column("a".to_string());
    table.add_row(vec!["x".to_string()]);
    table.add_row(vec!["y".to_string()]);
    let shards = table.to_shards(2).unwrap();
    let first = &shards[0];
    let before_len = first.len();
    let before_cols = first.get_columns().clone();
    let err = match first.to_shards(2) {
        Ok(_) => panic!("a sharded table must refuse to shard again"),
        Err(e) => e,
    };
    assert_eq!(err, TableError::AlreadySharded);
    assert_eq!(err.describe(), "table is already sharded");
    // the refused table is untouched
    assert_eq!(first.len(), before_len);
    assert_eq!(first.get_columns(), &before_cols);
}

#[test]
fn from_shards_of_nothing_is_empty() {
    let rebuilt = Table::from_shards(Vec::new()).unwrap();
    assert_eq!(rebuilt.len(), 0);
    assert!(rebuilt.get_columns().is_empty());
    assert_eq!(rebuilt.shard_id(), None);
}

#[test]
fn shards_inherit_columns() {
    let mut table = Table::new();
    table.add_column("k".to_string());
    table.add_row(vec!["v".to_string()]);
    let shards = table.to_shards(2).unwrap();
    for shard in &shards {
        assert_eq!(shard.get_columns(), &vec!["k".to_string()]);
    }
}
