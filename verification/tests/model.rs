use std::collections::BTreeMap;

use simple_db::mem_table::MemTable;
use simple_db::node::Status;
use simple_db::tree::RedBlackTree;

/// A fixed stream of numbers.
fn stream(seed: u64) -> impl FnMut() -> u64 {
    let mut state = seed;
    move || {
        state ^= state << 13;
        state ^= state >> 7;
        state ^= state << 17;
        state
    }
}

#[test]
fn tree_agrees_with_a_sorted_map() {
    let mut next = stream(0x2545F4914F6CDD1D);
    let mut rb = RedBlackTree::<u64, u64>::new();
    let mut model: BTreeMap<u64, (u64, u128, bool)> = BTreeMap::new();
    for step in 0..3000u128 {
        let key = next() % 500;
        let value = next();
        if next() % 4 == 0 {
            rb.delete_key(&key, step);
            let held = model.get(&key).map_or(0, |e| e.0);
            model.insert(key, (held, step, true));
        } else {
            rb.insert_or_replace(key, value, step, Status::Available);
            model.insert(key, (value, step, false));
        }
        assert_eq!(rb.size, model.len() as u64);
    }
    for key in 0..500u64 {
        assert_eq!(rb.has_node(&key), model.contains_key(&key));
        assert_eq!(rb.value(&key), model.get(&key).map(|e| e.0));
        assert_eq!(rb.check_key_deleted(&key), model.get(&key).map_or(false, |e| e.2));
    }
    let mut iter = rb.root.into_iter();
    for (key, (value, timestamp, deleted)) in &model {
        let node = iter.next(&mut rb).unwrap();
        assert_eq!(node.key(&rb), Some(*key));
        assert_eq!(node.value(&rb), Some(*value));
        assert_eq!(node.timestamp(&rb), Some(*timestamp));
        assert_eq!(node.is_deleted(&rb), *deleted);
    }
    assert_eq!(iter.next(&mut rb), None);
}

#[test]
fn memtable_agrees_with_a_sorted_map() {
    let mut next = stream(0x9E3779B97F4A7C15);
    let mut table = MemTable::new();
    let mut model: BTreeMap<Vec<u8>, (Vec<u8>, u128, bool)> = BTreeMap::new();
    for step in 0..1500u128 {
        let key = (next() % 200).to_string().into_bytes();
        let value = vec![7u8; (next() % 9) as usize];
        if next() % 3 == 0 {
            table.delete(key.clone(), step);
            let held = model.get(&key).map_or(Vec::new(), |e| e.0.clone());
            model.insert(key, (held, step, true));
        } else {
            table.set(key.clone(), value.clone(), step);
            model.insert(key, (value, step, false));
        }
        let expected: usize = model.iter().map(|(k, e)| k.len() + e.0.len() + 43).sum();
        assert_eq!(table.size, expected);
    }
    for n in 0..200u64 {
        let key = n.to_string().into_bytes();
        let expected = model.get(&key).and_then(|e| if e.2 { None } else { Some(e.0.clone()) });
        assert_eq!(table.get(key), expected);
    }
    let rows: Vec<(Vec<u8>, Vec<u8>, u128)> = table
        .create_sorted_string_table()
        .into_iter()
        .map(|e| (e.key, e.value, e.timestamp))
        .collect();
    let expected: Vec<(Vec<u8>, Vec<u8>, u128)> =
        model.iter().map(|(k, e)| (k.clone(), e.0.clone(), e.1)).collect();
    assert_eq!(rows, expected);
    let file = table.flush(77).ok().unwrap();
    assert_eq!(file.name, "77.sst");
    assert_eq!(file.bytes, bincode::serialize(&expected).unwrap());
}
