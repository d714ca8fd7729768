//! Unit tests for the open-addressed hash map.

use dsa_lab::HashMap;

#[test]
fn test_new() {
    let map: HashMap<String, String> = HashMap::new();
    assert!(map.is_empty());
    assert_eq!(map.len(), 0);
}

#[test]
fn test_insert_and_get() {
    let mut map = HashMap::new();
    assert!(map
        .insert("key1".to_string(), "value1".to_string())
        .is_none());
    assert_eq!(map.get(&"key1".to_string()), Some(&"value1".to_string()));
    assert_eq!(map.len(), 1);
}

#[test]
fn test_insert_overwrite() {
    let mut map = HashMap::new();
    map.insert("key".to_string(), "value1".to_string());
    let old = map.insert("key".to_string(), "value2".to_string());
    assert_eq!(old, Some("value1".to_string()));
    assert_eq!(map.get(&"key".to_string()), Some(&"value2".to_string()));
    assert_eq!(map.len(), 1);
}

#[test]
fn test_remove() {
    let mut map = HashMap::new();
    map.insert("key".to_string(), "value".to_string());
    let removed = map.remove(&"key".to_string());
    assert_eq!(removed, Some("value".to_string()));
    assert!(map.get(&"key".to_string()).is_none());
    assert!(map.is_empty());
}

#[test]
fn test_contains_key() {
    let mut map = HashMap::new();
    map.insert("key".to_string(), "value".to_string());
    assert!(map.contains_key(&"key".to_string()));
    assert!(!map.contains_key(&"other".to_string()));
}

#[test]
fn test_clear() {
    let mut map = HashMap::new();
    map.insert("key1".to_string(), "value1".to_string());
    map.insert("key2".to_string(), "value2".to_string());
    map.clear();
    assert!(map.is_empty());
    assert!(map.get(&"key1".to_string()).is_none());
}

#[test]
fn test_resize() {
    let mut map = HashMap::with_capacity(4);
    for i in 0..100 {
        map.insert(format!("key{}", i), format!("value{}", i));
    }
    assert_eq!(map.len(), 100);
    for i in 0..100 {
        assert_eq!(map.get(&format!("key{}", i)), Some(&format!("value{}", i)));
    }
}

#[test]
fn test_tombstone_reuse() {
    let mut map = HashMap::new();
    map.insert("key1".to_string(), "value1".to_string());
    map.insert("key2".to_string(), "value2".to_string());
    map.remove(&"key1".to_string());
    map.insert("key3".to_string(), "value3".to_string());
    assert_eq!(map.len(), 2);
    assert!(map.contains_key(&"key2".to_string()));
    assert!(map.contains_key(&"key3".to_string()));
}

#[test]
fn test_get_mut() {
    let mut map = HashMap::new();
    map.insert("key".to_string(), "value".to_string());
    assert!(map.get_mut(&"missing".to_string()).is_none());
    if let Some(v) = map.get_mut(&"key".to_string()) {
        *v = "changed".to_string();
    }
    assert_eq!(map.get(&"key".to_string()), Some(&"changed".to_string()));
    assert_eq!(map.len(), 1);
}

#[test]
fn test_capacity_floor_and_retention() {
    let map: HashMap<String, u32> = HashMap::with_capacity(4);
    assert_eq!(map.capacity(), 16);
    let big: HashMap<String, u32> = HashMap::with_capacity(64);
    assert_eq!(big.capacity(), 64);
    let mut cleared: HashMap<String, u32> = HashMap::with_capacity(64);
    cleared.insert("a".to_string(), 1);
    cleared.clear();
    assert_eq!(cleared.capacity(), 64);
}

#[test]
fn test_default_is_empty() {
    let map: HashMap<u64, u64> = Default::default();
    assert!(map.is_empty());
    assert_eq!(map.capacity(), 16);
}

#[test]
fn test_integer_keys() {
    let mut map: HashMap<u64, String> = HashMap::new();
    for i in 0..50u64 {
        assert!(map.insert(i, format!("v{}", i)).is_none());
    }
    assert_eq!(map.len(), 50);
    for i in 0..50u64 {
        assert_eq!(map.get(&i), Some(&format!("v{}", i)));
    }
    assert_eq!(map.remove(&7), Some("v7".to_string()));
    assert_eq!(map.remove(&7), None);
    assert!(!map.contains_key(&7));
    assert_eq!(map.len(), 49);
}

#[test]
fn test_iter_keys_values() {
    let mut map: HashMap<String, u32> = HashMap::new();
    map.insert("a".to_string(), 1);
    map.insert("b".to_string(), 2);
    map.insert("c".to_string(), 3);
    map.remove(&"b".to_string());

    let pairs = map.iter();
    assert_eq!(pairs.len(), 2);
    let mut seen: Vec<(String, u32)> = pairs.iter().map(|(k, v)| ((*k).clone(), **v)).collect();
    seen.sort();
    assert_eq!(
        seen,
        vec![("a".to_string(), 1), ("c".to_string(), 3)]
    );

    let mut keys: Vec<String> = map.keys().iter().map(|k| (*k).clone()).collect();
    keys.sort();
    assert_eq!(keys, vec!["a".to_string(), "c".to_string()]);

    let mut values: Vec<u32> = map.values().iter().map(|v| **v).collect();
    values.sort();
    assert_eq!(values, vec![1, 3]);
}

#[test]
fn test_remove_then_absent_until_reinserted() {
    let mut map = HashMap::new();
    map.insert("k".to_string(), "v1".to_string());
    assert_eq!(map.remove(&"k".to_string()), Some("v1".to_string()));
    assert!(map.get(&"k".to_string()).is_none());
    assert!(!map.contains_key(&"k".to_string()));
    assert!(map.insert("k".to_string(), "v2".to_string()).is_none());
    assert_eq!(map.get(&"k".to_string()), Some(&"v2".to_string()));
}

#[test]
fn test_length_tracks_distinct_keys() {
    let mut map: HashMap<u64, u64> = HashMap::new();
    for i in 0..20u64 {
        map.insert(i, i);
    }
    for i in 0..20u64 {
        map.insert(i, i + 100);
    }
    assert_eq!(map.len(), 20);
    for i in 0..10u64 {
        map.remove(&i);
    }
    assert_eq!(map.len(), 10);
    map.remove(&3);
    assert_eq!(map.len(), 10);
}

#[test]
fn test_heavy_churn_stays_bounded() {
    // inserting and removing the same keys over and over exercises
    // tombstone reuse and growth: contents stay correct throughout
    let mut map: HashMap<u64, u64> = HashMap::with_capacity(16);
    for round in 0..200u64 {
        for k in 0..12u64 {
            map.insert(k, round);
        }
        for k in 0..12u64 {
            assert_eq!(map.remove(&k), Some(round));
        }
    }
    assert!(map.is_empty());
}
