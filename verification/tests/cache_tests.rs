use spectra_cache::DistributedHashTable;

#[test]
fn test_create_and_get() {
    let mut cache = DistributedHashTable::new();

    cache.insert("key1", "value1");
    assert_eq!(cache.get("key1"), Some("value1".to_string()));
    assert_eq!(cache.get("key2"), None);
}

#[test]
fn lib_test_insert_with_ttl() {
    let mut cache = DistributedHashTable::new();

    cache.insert_with_ttl_at("key1", "value1", 50, 0);
    assert_eq!(cache.get_at("key1", 0), Some("value1".to_string()));

    assert_eq!(cache.get_at("key1", 100), None);
}

#[test]
fn test_update() {
    let mut cache = DistributedHashTable::new();

    cache.insert("key1", "value1");
    assert!(cache.update("key1", "value2"));
    assert_eq!(cache.get("key1"), Some("value2".to_string()));

    assert!(!cache.update("key2", "value3"));
}

#[test]
fn lib_test_remove() {
    let mut cache = DistributedHashTable::new();

    cache.insert("key1", "value1");
    assert_eq!(cache.remove("key1"), Some("value1".to_string()));
    assert_eq!(cache.get("key1"), None);
    assert_eq!(cache.remove("key2"), None);
}

#[test]
fn lib_test_clear() {
    let mut cache = DistributedHashTable::new();

    cache.insert("key1", "value1");
    cache.insert("key2", "value2");
    assert_eq!(cache.size(), 2);

    cache.clear();
    assert!(cache.is_empty());
}

#[test]
fn lib_test_contains_key() {
    let mut cache = DistributedHashTable::new();

    cache.insert_at("key1", "value1", 0);
    assert!(cache.contains_key_at("key1", 0));
    assert!(!cache.contains_key_at("key2", 0));

    cache.insert_with_ttl_at("key3", "value3", 50, 0);
    assert!(cache.contains_key_at("key3", 0));

    assert!(!cache.contains_key_at("key3", 100));
}

#[test]
fn test_keys_and_values() {
    let mut cache = DistributedHashTable::new();

    cache.insert("key1", "value1");
    cache.insert("key2", "value2");

    let keys: Vec<_> = cache.keys();
    assert_eq!(keys.len(), 2);
    assert!(keys.contains(&"key1".to_string()));
    assert!(keys.contains(&"key2".to_string()));

    let values: Vec<_> = cache.values();
    assert_eq!(values.len(), 2);
    assert!(values.contains(&"value1".to_string()));
    assert!(values.contains(&"value2".to_string()));
}
