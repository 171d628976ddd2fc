use simple_db::engine::{Engine, Write};

#[test]
fn test_flow() {
    let mut engine = Engine::new(
        "/home/adarsh/my_files/personal/lsm-database-engine/sstable".to_owned(),
        1024,
    );

    let mut flushes = 0;
    for i in 1..60 {
        println!("Iteration {}", i);
        let key = i.to_string().as_bytes().to_vec();
        let value = (i + 1).to_string().as_bytes().to_vec();
        match engine.set(key, value, i as u128) {
            Write::Stored => {}
            Write::Flush { file, key, value, timestamp } => {
                assert!(!file.bytes.is_empty());
                assert_eq!(file.name, format!("{}.sst", i));
                assert_eq!(timestamp, i as u128);
                flushes += 1;
                engine.set_after_flush(key, value, timestamp);
            }
            Write::Failed { error, .. } => panic!("{}", error.message),
        }
        assert_eq!(
            engine.get(i.to_string().as_bytes().to_vec()),
            Some((i + 1).to_string().as_bytes().to_vec())
        );
        assert!(engine.mem_table.size <= 1024);
    }
    assert!(flushes > 0);
}

#[test]
fn engine_stores_while_the_budget_holds() {
    // one entry of a 1-byte key and a 1-byte value takes 45 bytes
    let mut engine = Engine::new("tables".to_owned(), 90);
    assert!(matches!(engine.set(vec![1], vec![10], 1), Write::Stored));
    assert_eq!(engine.mem_table.size, 45);
    assert!(matches!(engine.set(vec![2], vec![20], 2), Write::Stored));
    assert_eq!(engine.mem_table.size, 90);
    assert_eq!(engine.get(vec![1]), Some(vec![10]));
    assert_eq!(engine.get(vec![2]), Some(vec![20]));
    assert_eq!(engine.get(vec![3]), None);
}

#[test]
fn engine_asks_for_a_flush_when_the_budget_is_passed() {
    let mut engine = Engine::new("tables".to_owned(), 90);
    assert!(matches!(engine.set(vec![2], vec![20], 1), Write::Stored));
    assert!(matches!(engine.set(vec![1], vec![10], 2), Write::Stored));
    match engine.set(vec![3], vec![30], 3) {
        Write::Flush { file, key, value, timestamp } => {
            assert_eq!(file.name, "3.sst");
            let rows: Vec<(Vec<u8>, Vec<u8>, u128)> = bincode::deserialize(&file.bytes).unwrap();
            assert_eq!(rows, vec![(vec![1], vec![10], 2), (vec![2], vec![20], 1)]);
            // nothing changed yet
            assert_eq!(engine.mem_table.size, 90);
            assert_eq!(engine.get(vec![1]), Some(vec![10]));
            assert_eq!(engine.get(vec![3]), None);
            engine.set_after_flush(key, value, timestamp);
        }
        _ => panic!("the write should not fit"),
    }
    assert_eq!(engine.mem_table.size, 45);
    assert_eq!(engine.get(vec![3]), Some(vec![30]));
    assert_eq!(engine.get(vec![1]), None);
    assert_eq!(engine.mem_table_size, 90);
    assert_eq!(engine.ss_table_dir, "tables");
}

#[test]
fn engine_flushes_an_empty_memtable_for_an_entry_over_the_budget() {
    let mut engine = Engine::new("tables".to_owned(), 10);
    match engine.set(vec![1], vec![10], 8) {
        Write::Flush { file, key, value, timestamp } => {
            let rows: Vec<(Vec<u8>, Vec<u8>, u128)> = bincode::deserialize(&file.bytes).unwrap();
            assert!(rows.is_empty());
            engine.set_after_flush(key, value, timestamp);
        }
        _ => panic!("the write should not fit"),
    }
    assert_eq!(engine.get(vec![1]), Some(vec![10]));
    assert_eq!(engine.mem_table.size, 45);
}
