use elastic_hash::{ElasticHashTable, TableError};

#[test]
fn test_elastic_hash_table() {
    let n: usize = 10000;
    let delta: f64 = 0.01;
    let mut table: ElasticHashTable<usize, usize> = ElasticHashTable::new(n, 1, 100).unwrap();

    for i in 0..(n as f64 * (1.0 - delta)) as usize {
        table.insert(i, i << 1).expect("Insertion failed");
    }

    for i in 0..(n as f64 * (1.0 - delta)) as usize {
        let res = table.search(&i);
        assert!(res.is_some(), "Key {} not found", i);
        assert_eq!(res.unwrap(), &(i << 1));
    }
}

#[test]
fn test_small_elastic_hash_table() {
    let n: usize = 10;
    let mut table: ElasticHashTable<usize, usize> = ElasticHashTable::new(n, 1, 10).unwrap();

    for i in 0..9usize {
        let res = table.insert(i, i).expect("Insertion failed");
        println!("{:?}", res);
    }

    for i in 0..9usize {
        let res = table.search(&i);
        assert!(res.is_some(), "Key {} not found", i);
        assert_eq!(res.unwrap(), &i);
    }
}

#[test]
fn small_table_layout_and_capacity_limit() {
    let mut table: ElasticHashTable<usize, usize> = ElasticHashTable::new(10, 1, 10).unwrap();
    assert_eq!(table.max_inserts(), 9);
    assert_eq!(table.status().level_lengths, vec![5, 3, 2]);
    for i in 0..9usize {
        assert!(table.insert(i, i).is_ok());
    }
    for i in 0..9usize {
        assert_eq!(table.search(&i), Some(&i));
    }
    let before = table.status().occupancies;
    assert_eq!(table.insert(9, 9), Err(TableError::CapacityExceeded));
    assert_eq!(table.status().occupancies, before);
    assert_eq!(table.num_inserts(), 9);
    assert_eq!(table.search(&9), None);
}

#[test]
fn large_table_with_text_values() {
    let mut table: ElasticHashTable<usize, String> = ElasticHashTable::new(100000, 1, 10000).unwrap();
    assert_eq!(table.max_inserts(), 99990);
    for i in 0..99990usize {
        assert!(table.insert_unique(i, format!("Value {}", i)).is_ok(), "insert {} failed", i);
    }
    for i in 0..99990usize {
        assert_eq!(table.search(&i), Some(&format!("Value {}", i)));
    }
    assert_eq!(table.insert_unique(99990, "late".to_string()), Err(TableError::CapacityExceeded));
}

#[test]
fn bad_configuration_is_rejected() {
    assert!(matches!(
        ElasticHashTable::<usize, usize>::new(0, 1, 10),
        Err(TableError::ConfigurationError)
    ));
    assert!(matches!(
        ElasticHashTable::<usize, usize>::new(10, 0, 10),
        Err(TableError::ConfigurationError)
    ));
    assert!(matches!(
        ElasticHashTable::<usize, usize>::new(10, 10, 10),
        Err(TableError::ConfigurationError)
    ));
    assert!(matches!(
        ElasticHashTable::<usize, usize>::new(10, 11, 10),
        Err(TableError::ConfigurationError)
    ));
}

#[test]
fn level_lengths_sum_to_capacity() {
    for capacity in [1usize, 2, 3, 7, 10, 100, 12345] {
        let table: ElasticHashTable<usize, usize> = ElasticHashTable::new(capacity, 1, 2).unwrap();
        let lengths = table.status().level_lengths;
        assert!(!lengths.is_empty());
        assert_eq!(lengths.iter().sum::<usize>(), capacity);
        assert_eq!(table.capacity(), capacity);
    }
    let table: ElasticHashTable<usize, usize> = ElasticHashTable::new(1, 1, 2).unwrap();
    assert_eq!(table.status().level_lengths, vec![1]);
    let table: ElasticHashTable<usize, usize> = ElasticHashTable::new(7, 1, 2).unwrap();
    assert_eq!(table.status().level_lengths, vec![4, 2, 1]);
}

#[test]
fn max_inserts_formula() {
    let t: ElasticHashTable<usize, usize> = ElasticHashTable::new(7, 1, 3).unwrap();
    assert_eq!(t.max_inserts(), 5);
    let t: ElasticHashTable<usize, usize> = ElasticHashTable::new(100, 1, 3).unwrap();
    assert_eq!(t.max_inserts(), 67);
    let t: ElasticHashTable<usize, usize> = ElasticHashTable::new(10000, 1, 100).unwrap();
    assert_eq!(t.max_inserts(), 9900);
    let t: ElasticHashTable<usize, usize> = ElasticHashTable::new(3, 1, 4).unwrap();
    assert_eq!(t.max_inserts(), 3);
}

#[test]
fn absent_keys_are_not_found() {
    let mut table: ElasticHashTable<usize, usize> = ElasticHashTable::new(50, 1, 10).unwrap();
    assert_eq!(table.search(&3), None);
    for i in 0..40usize {
        table.insert(2 * i, i).unwrap();
    }
    for i in 0..40usize {
        assert_eq!(table.search(&(2 * i + 1)), None);
        assert_eq!(table.search(&(2 * i)), Some(&i));
    }
}

#[test]
fn probes_stay_inside_the_level() {
    for size in [1usize, 2, 5, 17, 1000] {
        for level in 0..4usize {
            for j in 0..50usize {
                let idx = ElasticHashTable::<usize, usize>::quad_probe(&j, level, j, size);
                assert!(idx < size);
            }
        }
    }
    let a = ElasticHashTable::<usize, usize>::quad_probe(&42, 1, 0, 1_000_003);
    let b = ElasticHashTable::<usize, usize>::quad_probe(&42, 1, 3, 1_000_003);
    assert_eq!(b, (a + 9) % 1_000_003);
}

#[test]
fn repeated_search_gives_the_same_answer() {
    let mut table: ElasticHashTable<usize, usize> = ElasticHashTable::new(30, 1, 5).unwrap();
    for i in 0..20usize {
        table.insert(i, i * 7).unwrap();
    }
    for i in 0..25usize {
        let first = table.search(&i).copied();
        let second = table.search(&i).copied();
        assert_eq!(first, second);
    }
}

#[test]
fn duplicate_key_is_rejected() {
    let mut table: ElasticHashTable<usize, usize> = ElasticHashTable::new(20, 1, 10).unwrap();
    assert!(table.insert(5, 1).is_ok());
    assert_eq!(table.insert(5, 2), Err(TableError::DuplicateKey));
    assert_eq!(table.search(&5), Some(&1));
    assert_eq!(table.num_inserts(), 1);
}

#[test]
fn insert_reports_the_slot_it_filled() {
    let mut table: ElasticHashTable<usize, usize> = ElasticHashTable::new(10, 1, 10).unwrap();
    let (level, slot) = table.insert(3, 30).unwrap();
    let status = table.status();
    assert!(slot < status.level_lengths[level]);
    assert_eq!(status.occupancies[level], 1);
    assert_eq!(status.occupancies.iter().sum::<usize>(), 1);
    assert_eq!(status.num_inserts, 1);
}

#[test]
fn text_keys() {
    let mut table: ElasticHashTable<String, String> = ElasticHashTable::new(16, 1, 8).unwrap();
    table.insert("alpha".to_string(), "one".to_string()).unwrap();
    table.insert("beta".to_string(), "two".to_string()).unwrap();
    assert_eq!(table.search(&"alpha".to_string()), Some(&"one".to_string()));
    assert_eq!(table.search(&"beta".to_string()), Some(&"two".to_string()));
    assert_eq!(table.search(&"gamma".to_string()), None);
    assert_eq!(
        table.insert("alpha".to_string(), "three".to_string()),
        Err(TableError::DuplicateKey)
    );
}

#[test]
fn text_keys_fill_to_the_limit() {
    let mut table: ElasticHashTable<String, usize> = ElasticHashTable::new(64, 1, 16).unwrap();
    for i in 0..60usize {
        assert!(table.insert(format!("key-{}", i), i).is_ok());
    }
    for i in 0..60usize {
        assert_eq!(table.search(&format!("key-{}", i)), Some(&i));
    }
    assert_eq!(table.insert("one more".to_string(), 0), Err(TableError::CapacityExceeded));
}

#[test]
fn first_insert_lands_on_first_probe_of_first_level() {
    let mut table: ElasticHashTable<usize, usize> = ElasticHashTable::new(10, 1, 10).unwrap();
    let expected = ElasticHashTable::<usize, usize>::quad_probe(&3, 0, 0, 5);
    assert_eq!(table.insert(3, 30), Ok((0, expected)));
}

#[test]
fn probes_depend_on_the_hash_not_the_key_alone() {
    let size: usize = 1_000_003;
    let mut differs = 0;
    for key in 0..20usize {
        let first = ElasticHashTable::<usize, usize>::quad_probe(&key, 0, 0, size);
        if first != key {
            differs += 1;
        }
        let other_level = ElasticHashTable::<usize, usize>::quad_probe(&key, 1, 0, size);
        assert!(first < size && other_level < size);
    }
    assert!(differs > 10);
}

#[test]
fn insert_unique_fills_and_finds() {
    let mut table: ElasticHashTable<u64, u64> = ElasticHashTable::new(40, 1, 8).unwrap();
    assert_eq!(table.max_inserts(), 35);
    for i in 0..35u64 {
        assert!(table.insert_unique(i * 3, i).is_ok());
    }
    for i in 0..35u64 {
        assert_eq!(table.search(&(i * 3)), Some(&i));
        assert_eq!(table.search(&(i * 3 + 1)), None);
    }
    assert_eq!(table.insert_unique(1000, 0), Err(TableError::CapacityExceeded));
    assert_eq!(table.status().occupancies.iter().sum::<usize>(), 35);
}

#[test]
fn new_table_keeps_the_counts_and_levels_through_a_refusal() {
    let mut table: ElasticHashTable<usize, usize> = ElasticHashTable::new(4, 1, 2).unwrap();
    assert_eq!(table.max_inserts(), 2);
    assert_eq!(table.status().occupancies, vec![0, 0, 0]);
    assert_eq!(table.status().level_lengths, vec![2, 1, 1]);
    assert!(table.insert(1, 10).is_ok());
    assert!(table.insert(2, 20).is_ok());
    let lengths = table.status().level_lengths;
    assert_eq!(table.insert(3, 30), Err(TableError::CapacityExceeded));
    assert_eq!(table.status().level_lengths, lengths);
    assert_eq!(table.search(&1), Some(&10));
    assert_eq!(table.search(&2), Some(&20));
    assert_eq!(table.search(&3), None);
}
