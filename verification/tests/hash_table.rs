use toolbox::hash_table::{HashTable, INITIAL_CAPACITY};

fn key(s: &str) -> String {
    s.to_string()
}

#[test]
fn new_table_is_empty() {
    let table = HashTable::new();
    assert!(table.is_empty());
    assert_eq!(table.len(), 0);
    assert_eq!(table.capacity(), INITIAL_CAPACITY);
    assert_eq!(table.get(&key("apple")), None);
    assert!(!table.contains_key(&key("apple")));
    assert!(table.keys().is_empty());
    assert!(table.values().is_empty());
    assert!(!table.is_crowded());
}

#[test]
fn insert_get_and_overwrite() {
    let mut table = HashTable::new();
    for (k, v) in [("apple", 5), ("banana", 3), ("cherry", 8), ("date", 2), ("elderberry", 12)] {
        table.insert(key(k), v);
    }
    assert_eq!(table.len(), 5);
    assert_eq!(table.get(&key("cherry")), Some(&8));
    assert_eq!(table.get(&key("fig")), None);
    table.insert(key("cherry"), -1);
    assert_eq!(table.len(), 5);
    assert_eq!(table.get(&key("cherry")), Some(&-1));
    assert!(table.contains_key(&key("date")));
    let mut keys: Vec<String> = table.keys().into_iter().cloned().collect();
    keys.sort();
    assert_eq!(keys, vec!["apple", "banana", "cherry", "date", "elderberry"]);
    let mut values: Vec<i32> = table.values().into_iter().copied().collect();
    values.sort();
    assert_eq!(values, vec![-1, 2, 3, 5, 12]);
}

#[test]
fn hash_depends_on_the_key_alone() {
    let table = HashTable::new();
    let other = HashTable::new();
    for word in ["a", "b", "apple", "", "ключ"] {
        let slot = table.hash(&key(word));
        assert!(slot < 16);
        assert_eq!(slot, table.hash(&key(word)));
        assert_eq!(slot, other.hash(&key(word)));
    }
    let slots: Vec<usize> = (0..64).map(|i| table.hash(&format!("key{}", i))).collect();
    assert!(slots.iter().any(|s| *s != slots[0]));
}

#[test]
fn remove_gives_the_slot_up() {
    let mut table = HashTable::new();
    table.insert(key("apple"), 5);
    table.insert(key("banana"), 3);
    assert_eq!(table.remove(&key("apple")), Some(5));
    assert_eq!(table.remove(&key("apple")), None);
    assert_eq!(table.remove(&key("cherry")), None);
    assert_eq!(table.len(), 1);
    assert_eq!(table.get(&key("apple")), None);
    assert_eq!(table.get(&key("banana")), Some(&3));
    let home = table.hash(&key("apple"));
    let (slot, found) = table.find_slot(&key("apple"));
    assert!(!found);
    assert!(table.slot_entry(slot).as_ref().map_or(true, |e| e.is_deleted));
    assert_eq!(table.find_slot_from(&key("apple"), home), (slot, false));
    table.insert(key("apple"), 7);
    assert_eq!(table.get(&key("apple")), Some(&7));
    assert_eq!(table.len(), 2);
}

#[test]
fn table_doubles_when_crowded() {
    let mut table = HashTable::new();
    for i in 0..13 {
        table.insert(format!("key{}", i), i);
        assert_eq!(table.capacity(), 16);
    }
    assert!(table.is_crowded());
    table.insert(key("one more"), 99);
    assert_eq!(table.capacity(), 32);
    assert_eq!(table.len(), 14);
    for i in 0..13 {
        assert_eq!(table.get(&format!("key{}", i)), Some(&i));
    }
    assert_eq!(table.get(&key("one more")), Some(&99));
    table.resize();
    assert_eq!(table.capacity(), 64);
    assert_eq!(table.len(), 14);
    assert_eq!(table.get(&key("key7")), Some(&7));
}

#[test]
fn many_keys_come_and_go() {
    let mut table = HashTable::new();
    for round in 0..5 {
        for i in 0..200 {
            table.insert(format!("k{}", i), i * round);
        }
        for i in (0..200).step_by(2) {
            assert_eq!(table.remove(&format!("k{}", i)), Some(i * round));
        }
        assert_eq!(table.len(), 100);
        for i in 0..200 {
            let expected = if i % 2 == 1 { Some(i * round) } else { None };
            assert_eq!(table.get(&format!("k{}", i)).copied(), expected);
        }
    }
    assert_eq!(table.keys().len(), 100);
    table.insert_internal(key("last"), 1);
    assert_eq!(table.len(), 101);
}
