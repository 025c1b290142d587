use classic_structures::hashtable::{HashMap, HashMapEntry, HashMapError};
use std::hash::BuildHasher;

fn std_hash(key: &str) -> u64 {
    std::hash::BuildHasherDefault::<std::collections::hash_map::DefaultHasher>::default()
        .hash_one(key)
}

#[test]
fn build_hash_map_entry() {
    let entry = HashMapEntry::new("Hello", 0);
    let another_entry = HashMapEntry::new("World", 1);
    assert!(entry.key == "Hello");
    assert!(another_entry.key == "World");
    assert!(entry.value == 0);
    assert!(another_entry.value == 1);
}

#[test]
fn build_hash_map() {
    let size = 10;
    let mut hash_map = HashMap::<i32>::new(size).unwrap();
    assert_eq!(hash_map.size(), size);
    hash_map.extend(size * 2).unwrap();
    // extended the size by twice so we have size + 2*size = 3*size
    assert!(hash_map.size() == size * 3);
}

#[test]
fn test_amount() {
    let size = 32;
    let mut hash_map = HashMap::<usize>::new(size).unwrap();
    let words = vec!["Hello", "World", "the", "hash", "table", "can", "word"];
    for w in words.iter() {
        hash_map.insert(w, 1).unwrap();
    }
    hash_map.insert(&"World", 1).unwrap();
    hash_map.insert(&"World", 1).unwrap();
    hash_map.insert(&"the", 1).unwrap();
    assert_eq!(hash_map.amount(), words.len());
}

#[test]
fn hashtable_test_insert() {
    let size = 32;
    let mut hash_map = HashMap::<usize>::new(size).unwrap();
    let words = vec!["Hello", "World", "the", "hash", "table", "can", "word"];
    for w in words {
        hash_map.insert(w, 1).unwrap();
    }
    hash_map.insert(&"World", 2).unwrap();
    hash_map.insert(&"World", 3).unwrap();
    hash_map.insert(&"the", 2).unwrap();
    assert_eq!(hash_map.get(&"World"), Some(3));
    assert_eq!(hash_map.get(&"the"), Some(2));
    assert_eq!(hash_map.get(&"can"), Some(1));
}

#[test]
fn test_delete() {
    let size = 32;
    let mut hash_map = HashMap::<usize>::new(size).unwrap();
    let words = vec!["Hello", "World", "the", "hash", "table", "can", "word"];
    for w in words {
        hash_map.insert(w, 1).unwrap();
    }
    hash_map.insert(&"World", 1).unwrap();
    hash_map.insert(&"World", 2).unwrap();
    hash_map.insert(&"the", 1).unwrap();
    hash_map.delete(&"World");
    assert_eq!(hash_map.get(&"World"), None);
}

#[test]
fn repeated_key_scenario() {
    let mut hash_map = HashMap::<usize>::new(32).unwrap();
    for w in ["Hello", "World", "the", "hash", "table", "can", "word"] {
        hash_map.insert(w, 1).unwrap();
    }
    hash_map.insert("World", 2).unwrap();
    hash_map.insert("World", 3).unwrap();
    assert_eq!(hash_map.get("World"), Some(3));
    assert_eq!(hash_map.get("the"), Some(1));
    assert_eq!(hash_map.amount(), 7);
    assert_eq!(hash_map.remaining_entries(), 25);
}

#[test]
fn zero_capacity_is_refused() {
    assert!(matches!(
        HashMap::<u8>::new(0),
        Err(HashMapError::InvalidCapacity)
    ));
}

#[test]
fn distinct_inserts_are_all_found() {
    let mut hash_map = HashMap::<usize>::new(16).unwrap();
    let keys: Vec<String> = (0..16).map(|i| format!("key{}", i)).collect();
    for (i, k) in keys.iter().enumerate() {
        hash_map.insert(k, i).unwrap();
    }
    assert_eq!(hash_map.amount(), 16);
    assert_eq!(hash_map.remaining_entries(), 0);
    for (i, k) in keys.iter().enumerate() {
        assert_eq!(hash_map.get(k), Some(i));
    }
    assert_eq!(hash_map.get("absent"), None);
}

#[test]
fn reinsert_changes_value_not_amount() {
    let mut hash_map = HashMap::<i64>::new(8).unwrap();
    hash_map.insert("a", 1).unwrap();
    hash_map.insert("b", 2).unwrap();
    assert_eq!(hash_map.amount(), 2);
    hash_map.insert("a", 10).unwrap();
    assert_eq!(hash_map.amount(), 2);
    assert_eq!(hash_map.get("a"), Some(10));
}

#[test]
fn delete_then_get_and_absent_delete() {
    let mut hash_map = HashMap::<u32>::new(8).unwrap();
    hash_map.insert("x", 7).unwrap();
    hash_map.insert("y", 8).unwrap();
    let removed = hash_map.delete("x").unwrap();
    assert_eq!(removed.key, "x");
    assert_eq!(removed.value, 7);
    assert_eq!(hash_map.get("x"), None);
    assert_eq!(hash_map.amount(), 1);
    assert!(hash_map.delete("x").is_none());
    assert!(hash_map.delete("never").is_none());
    assert_eq!(hash_map.amount(), 1);
    assert_eq!(hash_map.get("y"), Some(8));
}

#[test]
fn deletion_keeps_other_keys_reachable() {
    let mut hash_map = HashMap::<usize>::new(8).unwrap();
    let keys: Vec<String> = (0..8).map(|i| format!("w{}", i)).collect();
    for (i, k) in keys.iter().enumerate() {
        hash_map.insert(k, i).unwrap();
    }
    for k in keys.iter().take(4) {
        assert!(hash_map.delete(k).is_some());
    }
    for (i, k) in keys.iter().enumerate().skip(4) {
        assert_eq!(hash_map.get(k), Some(i));
    }
    hash_map.insert("fresh", 99).unwrap();
    assert_eq!(hash_map.get("fresh"), Some(99));
    assert_eq!(hash_map.amount(), 5);
    assert_eq!(hash_map.size(), 8);
}

#[test]
fn growth_keeps_every_pair() {
    let capacity = 4;
    let mut hash_map = HashMap::<usize>::new(capacity).unwrap();
    let keys: Vec<String> = (0..capacity + 1).map(|i| format!("g{}", i)).collect();
    for (i, k) in keys.iter().enumerate() {
        hash_map.insert(k, i * 10).unwrap();
    }
    assert_eq!(hash_map.size(), 2 * capacity);
    assert_eq!(hash_map.amount(), capacity + 1);
    for (i, k) in keys.iter().enumerate() {
        assert_eq!(hash_map.get(k), Some(i * 10));
    }
}

#[test]
fn extend_keeps_pairs_and_refuses_overflow() {
    let mut hash_map = HashMap::<u8>::new(4).unwrap();
    hash_map.insert("p", 1).unwrap();
    hash_map.insert("q", 2).unwrap();
    hash_map.extend(4).unwrap();
    assert_eq!(hash_map.size(), 8);
    assert_eq!(hash_map.get("p"), Some(1));
    assert_eq!(hash_map.get("q"), Some(2));
    assert_eq!(hash_map.extend(usize::MAX), Err(HashMapError::CapacityOverflow));
    assert_eq!(hash_map.size(), 8);
    assert_eq!(hash_map.amount(), 2);
}

#[test]
fn hash_key_is_std_default_hash() {
    assert_eq!(HashMap::<u8>::hash_key("Hello"), std_hash("Hello"));
    assert_ne!(HashMap::<u8>::hash_key("Hello"), HashMap::<u8>::hash_key("World"));
    let hash_map = HashMap::<u8>::new(32).unwrap();
    assert_eq!(hash_map.get_index("Hello"), (std_hash("Hello") % 32) as usize);
    assert_eq!(hash_map.index_for_hash(70), 6);
}

#[test]
fn probe_walk_with_no_free_slot_is_reported() {
    // With three slots the walk from slot 2 never leaves it: (5 * 2 + 1) mod 3 == 2.
    let mut stuck: Vec<String> = Vec::new();
    let mut i = 0;
    while stuck.len() < 2 {
        let k = format!("s{}", i);
        if std_hash(&k) % 3 == 2 {
            stuck.push(k);
        }
        i += 1;
    }
    let mut hash_map = HashMap::<u8>::new(3).unwrap();
    hash_map.insert(&stuck[0], 1).unwrap();
    assert_eq!(hash_map.insert(&stuck[1], 2), Err(HashMapError::ProbeExhausted));
    assert_eq!(hash_map.amount(), 1);
    assert_eq!(hash_map.get(&stuck[1]), None);
    assert_eq!(hash_map.get(&stuck[0]), Some(1));
}

#[test]
fn replace_returns_previous_value() {
    let mut entry = HashMapEntry::new("k", 5u32);
    assert_eq!(entry.replace(6), 5);
    assert_eq!(entry.value, 6);
    assert_eq!(entry.key, "k");
}

#[test]
fn full_map_of_power_of_two_grows_on_existing_key() {
    let mut hash_map = HashMap::<u16>::new(2).unwrap();
    hash_map.insert("a", 1).unwrap();
    hash_map.insert("b", 2).unwrap();
    assert_eq!(hash_map.remaining_entries(), 0);
    hash_map.insert("a", 3).unwrap();
    assert_eq!(hash_map.size(), 4);
    assert_eq!(hash_map.amount(), 2);
    assert_eq!(hash_map.get("a"), Some(3));
    assert_eq!(hash_map.get("b"), Some(2));
}
