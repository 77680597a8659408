use spectra_cache::BTreeCache;

#[test]
fn test_create_empty_cache() {
    let cache = BTreeCache::new();
    assert_eq!(cache.size(), 0);
    assert!(cache.is_empty());
}

#[test]
fn btree_cache_test_test_insert_and_get() {
    let mut cache = BTreeCache::new();
    let key = "test_key";
    let value = "test_value";

    cache.insert(key, value);
    assert_eq!(cache.size(), 1);
    assert!(!cache.is_empty());

    let retrieved = cache.get(key).unwrap();
    assert_eq!(retrieved, value);
}

#[test]
fn btree_cache_test_test_insert_with_ttl() {
    let mut cache = BTreeCache::new();
    let key = "test_key";
    let value = "test_value";

    cache.insert_with_ttl_at(key, value, 50, 0);
    assert_eq!(cache.size(), 1);

    assert_eq!(cache.get_at(key, 0).unwrap(), value);

    assert!(cache.get_at(key, 100).is_none());
    assert!(cache.is_empty());
}

#[test]
fn btree_cache_test_test_remove() {
    let mut cache = BTreeCache::new();
    let key = "test_key";
    let value = "test_value";

    cache.insert(key, value);
    assert_eq!(cache.size(), 1);

    let removed = cache.remove(key);
    assert_eq!(removed, Some(value.to_string()));
    assert!(cache.is_empty());

    let removed = cache.remove("non_existent");
    assert!(removed.is_none());
}

#[test]
fn btree_cache_test_test_update_existing() {
    let mut cache = BTreeCache::new();
    let key = "test_key";
    let value1 = "value1";
    let value2 = "value2";

    cache.insert(key, value1);
    assert_eq!(cache.get(key).unwrap(), value1);

    cache.insert(key, value2);
    assert_eq!(cache.get(key).unwrap(), value2);
    assert_eq!(cache.size(), 1);
}

#[test]
fn btree_cache_test_test_clear() {
    let mut cache = BTreeCache::new();

    cache.insert("key1", "value1");
    cache.insert("key2", "value2");
    assert_eq!(cache.size(), 2);

    cache.clear();
    assert!(cache.is_empty());
    assert_eq!(cache.size(), 0);
}

#[test]
fn btree_cache_test_test_contains_key() {
    let mut cache = BTreeCache::new();
    let key = "test_key";
    let value = "test_value";

    assert!(!cache.contains_key(key));

    cache.insert(key, value);
    assert!(cache.contains_key(key));

    cache.remove(key);
    assert!(!cache.contains_key(key));
}

#[test]
fn btree_cache_test_test_keys() {
    let mut cache = BTreeCache::new();

    cache.insert("key1", "value1");
    cache.insert("key2", "value2");

    let keys: Vec<_> = cache.keys();
    assert_eq!(keys.len(), 2);
    assert!(keys.contains(&"key1".to_string()));
    assert!(keys.contains(&"key2".to_string()));
}

#[test]
fn btree_cache_test_test_values() {
    let mut cache = BTreeCache::new();

    cache.insert("key1", "value1");
    cache.insert("key2", "value2");

    let values: Vec<_> = cache.values();
    assert_eq!(values.len(), 2);
    assert!(values.contains(&"value1".to_string()));
    assert!(values.contains(&"value2".to_string()));
}

#[test]
fn test_ordered_operations() {
    let mut cache = BTreeCache::new();

    cache.insert("c", "3");
    cache.insert("a", "1");
    cache.insert("b", "2");

    assert_eq!(cache.first(), Some(("a".to_string(), "1".to_string())));
    assert_eq!(cache.last(), Some(("c".to_string(), "3".to_string())));

    let range: Vec<_> = cache.range("a", "b");
    assert_eq!(range.len(), 2);
    assert_eq!(range[0].1, "1");
    assert_eq!(range[1].1, "2");

    let keys: Vec<_> = cache.keys();
    assert_eq!(keys, vec!["a", "b", "c"]);

    let values: Vec<_> = cache.values();
    assert_eq!(values, vec!["1", "2", "3"]);
}

#[test]
fn test_range_queries() {
    let mut cache = BTreeCache::new();

    for i in 0..10 {
        cache.insert(&format!("key{}", i), &i.to_string());
    }

    let mid_range: Vec<_> = cache.range("key3", "key6").into_iter().map(|(_, v)| v).collect();
    assert_eq!(mid_range, vec!["3", "4", "5", "6"]);

    let start_range: Vec<_> = cache.range("key0", "key2").into_iter().map(|(_, v)| v).collect();
    assert_eq!(start_range, vec!["0", "1", "2"]);

    let end_range: Vec<_> = cache.range("key7", "key9").into_iter().map(|(_, v)| v).collect();
    assert_eq!(end_range, vec!["7", "8", "9"]);
}
