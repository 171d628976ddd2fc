use simple_db::mem_table::MemTable;
use simple_db::sstable::{
    decimal_string, rows_of, table_file_name, SSTable, SSTableEntry, TableFile,
};

fn bytes(s: &str) -> Vec<u8> {
    s.as_bytes().to_vec()
}

#[test]
fn max_entry_size_is_lengths_plus_overhead() {
    let m = MemTable::new();
    // 5 + 5 + 16 + 3 * 8 + 1 + 1 + 1
    assert_eq!(m.get_max_entry_size(&bytes("hello"), &bytes("world")), 53);
    assert_eq!(m.get_max_entry_size(&Vec::new(), &Vec::new()), 43);
}

#[test]
fn set_then_get() {
    let mut m = MemTable::new();
    assert_eq!(m.size, 0);
    assert_eq!(m.get(bytes("k")), None);
    m.set(bytes("k"), bytes("v1"), 1);
    assert_eq!(m.get(bytes("k")), Some(bytes("v1")));
    assert_eq!(m.get(bytes("j")), None);
}

#[test]
fn size_counts_a_new_key_in_full() {
    let mut m = MemTable::new();
    m.set(bytes("hello"), bytes("world"), 1);
    assert_eq!(m.size, 53);
    m.set(bytes("a"), bytes(""), 2);
    assert_eq!(m.size, 53 + 44);
}

#[test]
fn size_is_unchanged_by_the_same_value() {
    let mut m = MemTable::new();
    m.set(bytes("k"), bytes("value"), 1);
    let size = m.size;
    m.set(bytes("k"), bytes("value"), 2);
    assert_eq!(m.size, size);
    m.set(bytes("k"), bytes("other"), 3);
    assert_eq!(m.size, size);
}

#[test]
fn size_follows_the_value_length() {
    let mut m = MemTable::new();
    m.set(bytes("k"), bytes("ab"), 1);
    let size = m.size;
    m.set(bytes("k"), bytes("abcdefg"), 2);
    assert_eq!(m.size, size + 5);
    m.set(bytes("k"), bytes(""), 3);
    assert_eq!(m.size, size - 2);
    assert_eq!(m.get(bytes("k")), Some(bytes("")));
}

#[test]
fn delete_of_an_absent_key_leaves_a_tombstone() {
    let mut m = MemTable::new();
    m.delete(bytes("gone"), 5);
    assert_eq!(m.get(bytes("gone")), None);
    assert!(m.db_store.has_node(&bytes("gone")));
    assert!(m.db_store.check_key_deleted(&bytes("gone")));
    // the placeholder has an empty value
    assert_eq!(m.db_store.value(&bytes("gone")), Some(Vec::new()));
    assert_eq!(m.size, 4 + 43);
}

#[test]
fn delete_of_a_bound_key_hides_it_and_keeps_the_size() {
    let mut m = MemTable::new();
    m.set(bytes("k"), bytes("value"), 1);
    let size = m.size;
    m.delete(bytes("k"), 2);
    assert_eq!(m.get(bytes("k")), None);
    assert!(m.db_store.has_node(&bytes("k")));
    assert_eq!(m.size, size);
    // the value stays under the tombstone
    assert_eq!(m.db_store.value(&bytes("k")), Some(bytes("value")));
    // a write brings the key back
    m.set(bytes("k"), bytes("again"), 3);
    assert_eq!(m.get(bytes("k")), Some(bytes("again")));
    assert_eq!(m.size, size);
}

#[test]
fn sorted_table_lists_entries_by_key() {
    let mut m = MemTable::new();
    m.set(bytes("k2"), bytes("v2"), 7);
    m.set(bytes("k1"), bytes("v1"), 7);
    let table = m.create_sorted_string_table();
    let rows: Vec<(Vec<u8>, Vec<u8>, u128)> =
        table.into_iter().map(|e| (e.key, e.value, e.timestamp)).collect();
    assert_eq!(rows, vec![(bytes("k1"), bytes("v1"), 7), (bytes("k2"), bytes("v2"), 7)]);
    // the memtable is as it was
    assert_eq!(m.get(bytes("k1")), Some(bytes("v1")));
    assert_eq!(m.get(bytes("k2")), Some(bytes("v2")));
    assert_eq!(m.create_sorted_string_table().len(), 2);
}

#[test]
fn sorted_table_keeps_tombstones_and_timestamps() {
    let mut m = MemTable::new();
    m.set(bytes("b"), bytes("1"), 1);
    m.set(bytes("a"), bytes("2"), 2);
    m.delete(bytes("b"), 3);
    m.delete(bytes("c"), 4);
    let rows = rows_of(&m.create_sorted_string_table());
    assert_eq!(
        rows,
        vec![(bytes("a"), bytes("2"), 2), (bytes("b"), bytes("1"), 3), (bytes("c"), bytes(""), 4)]
    );
}

#[test]
fn sorted_table_of_an_empty_memtable_is_empty() {
    let mut m = MemTable::new();
    assert!(m.create_sorted_string_table().is_empty());
}

#[test]
fn flush_gives_the_same_file_for_the_same_entries() {
    let mut m = MemTable::new();
    m.set(bytes("K2"), bytes("V2"), 9);
    m.set(bytes("K1"), bytes("V1"), 9);
    let first = m.flush(9).ok().unwrap();
    let second = m.flush(9).ok().unwrap();
    assert_eq!(first.name, "9.sst");
    assert_eq!(first.name, second.name);
    assert_eq!(first.bytes, second.bytes);
    let mut decoded: Vec<(Vec<u8>, Vec<u8>, u128)> = bincode::deserialize(&first.bytes).unwrap();
    decoded.sort();
    assert_eq!(decoded, vec![(bytes("K1"), bytes("V1"), 9), (bytes("K2"), bytes("V2"), 9)]);

    // the other order of writes gives the same file
    let mut other = MemTable::new();
    other.set(bytes("K1"), bytes("V1"), 9);
    other.set(bytes("K2"), bytes("V2"), 9);
    assert_eq!(other.flush(9).ok().unwrap().bytes, first.bytes);
}

#[test]
fn encoded_table_frames_each_field_by_its_length() {
    let table = vec![SSTableEntry::new(vec![1], vec![2, 3], 7)];
    let file = TableFile::encode(&table, 1700000000000000).ok().unwrap();
    assert_eq!(file.name, "1700000000000000.sst");
    let mut expected: Vec<u8> = Vec::new();
    expected.extend_from_slice(&1u64.to_le_bytes()); // one entry
    expected.extend_from_slice(&1u64.to_le_bytes()); // key length
    expected.push(1);
    expected.extend_from_slice(&2u64.to_le_bytes()); // value length
    expected.extend_from_slice(&[2, 3]);
    expected.extend_from_slice(&7u128.to_le_bytes());
    assert_eq!(file.bytes, expected);
    assert_ne!(file.bytes, vec![1, 2, 3]);
}

#[test]
fn encoding_is_taken_as_it_comes() {
    let ok = TableFile::from_encoding("1.sst".to_owned(), Ok(vec![1, 2, 3])).ok().unwrap();
    assert_eq!(ok.name, "1.sst");
    assert_eq!(ok.bytes, vec![1, 2, 3]);
    let refused: Result<Vec<u8>, bincode::Error> = bincode::deserialize::<Vec<u8>>(&[1]);
    let err = TableFile::from_encoding("1.sst".to_owned(), refused).err().unwrap();
    assert!(!err.message.is_empty());
}

#[test]
fn table_files_are_named_by_their_timestamp() {
    assert_eq!(table_file_name(0), "0.sst");
    assert_eq!(table_file_name(42), "42.sst");
    assert_eq!(table_file_name(u128::MAX), "340282366920938463463374607431768211455.sst");
}

#[test]
fn numbers_are_written_in_decimal() {
    for n in [0u128, 1, 9, 10, 11, 99, 100, 101, 12345, 1700000000000000, u128::MAX - 1, u128::MAX] {
        assert_eq!(decimal_string(n), n.to_string());
    }
    assert_eq!(decimal_string(1070), "1070");
}

#[test]
fn tables_hold_their_entries() {
    let entry = SSTableEntry::new(bytes("k"), bytes("v"), 3);
    assert_eq!(entry.key, bytes("k"));
    assert_eq!(entry.value, bytes("v"));
    assert_eq!(entry.timestamp, 3);
    let table = SSTable(vec![entry]);
    assert_eq!(table.0.len(), 1);
}
