use spectra_cache::BTreeCache;
use spectra_cache::BloomFilter;
use spectra_cache::DistributedHashTable;
use spectra_cache::Entry;
use spectra_cache::FilterError;

#[test]
fn test_ttl_expiry_decreases_size() {
    let mut cache = DistributedHashTable::new();

    cache.insert_at("stay", "here", 0);
    cache.insert_with_ttl_at("k", "v", 50, 0);
    assert_eq!(cache.size(), 2);

    assert_eq!(cache.get_at("k", 10), Some("v".to_string()));
    assert_eq!(cache.size(), 2);

    assert_eq!(cache.get_at("k", 111), None);
    assert_eq!(cache.size(), 1);
    assert_eq!(cache.get_at("stay", 111), Some("here".to_string()));
}

#[test]
fn test_ttl_boundary_is_strict() {
    let mut cache = BTreeCache::new();

    cache.insert_with_ttl_at("k", "v", 50, 100);
    // An entry is live while its age does not exceed the TTL.
    assert_eq!(cache.get_at("k", 150), Some("v".to_string()));
    assert_eq!(cache.get_at("k", 151), None);
}

#[test]
fn test_contains_key_evicts_expired() {
    let mut cache = BTreeCache::new();

    cache.insert_with_ttl_at("k", "v", 50, 0);
    assert_eq!(cache.size(), 1);

    assert!(!cache.contains_key_at("k", 200));
    assert_eq!(cache.size(), 0);
}

#[test]
fn test_update_does_not_revive_expired_entry() {
    let mut cache = DistributedHashTable::new();

    cache.insert_with_ttl_at("k", "v1", 50, 0);
    // update succeeds on an expired-but-unobserved entry: it never checks
    // expiry or the filter...
    assert!(cache.update_at("k", "v2", 1000));
    // ...but it keeps the creation time and the TTL, so the entry is still
    // expired for the next read and gets evicted there.
    assert_eq!(cache.get_at("k", 1001), None);
    assert!(cache.is_empty());
}

#[test]
fn test_removal_shrinks_index_not_filter() {
    let mut cache = DistributedHashTable::new();
    cache.insert("k", "v");
    assert!(cache.contains_key("k"));

    cache.remove("k");
    assert!(!cache.contains_key("k"));

    // The filter itself never forgets a recorded key short of `clear`.
    let mut filter = BloomFilter::new(1000, 1, 100).unwrap();
    filter.insert("k");
    assert!(filter.contains("k"));
}

#[test]
fn test_filter_no_false_negatives_many_keys() {
    let mut filter = BloomFilter::new(200, 1, 100).unwrap();
    for i in 0..400 {
        // Twice the capacity: the no-false-negative guarantee is unconditional.
        filter.insert(&format!("member{}", i));
    }
    for i in 0..400 {
        assert!(filter.contains(&format!("member{}", i)));
    }
}

#[test]
fn test_construction_errors() {
    assert_eq!(BloomFilter::new(0, 1, 100).err(), Some(FilterError::InvalidCapacity));
    assert_eq!(BloomFilter::new(10, 0, 100).err(), Some(FilterError::InvalidRate));
    assert_eq!(BloomFilter::new(10, 100, 100).err(), Some(FilterError::InvalidRate));
    assert_eq!(BloomFilter::new(10, 101, 100).err(), Some(FilterError::InvalidRate));
    assert_eq!(BloomFilter::new(usize::MAX, 1, 100).err(), Some(FilterError::FilterTooLarge));
}

#[test]
fn test_merge_config_mismatch() {
    let mut small = BloomFilter::new(100, 1, 100).unwrap();
    let large = BloomFilter::new(1000, 1, 100).unwrap();

    assert_eq!(small.merge(&large), Err(FilterError::ConfigMismatch));
    // The failed merge changed nothing.
    assert_eq!(small.size(), 0);

    let other = BloomFilter::new(100, 1, 100).unwrap();
    assert_eq!(small.merge(&other), Ok(()));
}

#[test]
fn test_empty_cache_queries() {
    let mut cache = BTreeCache::new();

    assert_eq!(cache.get("missing"), None);
    assert_eq!(cache.remove("missing"), None);
    assert!(!cache.update("missing", "v"));
    assert_eq!(cache.first(), None);
    assert_eq!(cache.last(), None);
    assert!(cache.keys().is_empty());
    assert!(cache.values().is_empty());
    assert!(cache.range("a", "z").is_empty());
}

#[test]
fn test_empty_range_when_bounds_cross() {
    let mut cache = BTreeCache::new();
    cache.insert("b", "2");

    assert!(cache.range("c", "a").is_empty());
    assert_eq!(cache.range("a", "c").len(), 1);
    assert_eq!(cache.range("b", "b"), vec![("b".to_string(), "2".to_string())]);
}

#[test]
fn test_entry_age_and_expiry_formulas() {
    let entry = Entry::with_ttl("v", Some(50), 100);

    assert_eq!(entry.age(100), 0);
    assert_eq!(entry.age(250), 150);
    // A clock that moved backwards reads as age zero.
    assert_eq!(entry.age(40), 0);

    // Expiry is strict: age must exceed the TTL.
    assert!(!entry.is_expired(150));
    assert!(entry.is_expired(151));
    assert!(!entry.is_expired(0));
}

#[test]
fn test_clear_forgets_filter_too() {
    let mut cache = DistributedHashTable::new();
    cache.insert("k1", "v1");
    cache.insert("k2", "v2");

    cache.clear();
    assert!(cache.is_empty());
    assert!(!cache.contains_key("k1"));

    // The cache is fully usable again after a clear.
    cache.insert("k1", "v3");
    assert_eq!(cache.get("k1"), Some("v3".to_string()));
}

#[test]
fn test_ordered_insert_out_of_order_keys() {
    let mut cache = BTreeCache::new();
    let words = ["pear", "apple", "quince", "fig", "mango", "banana"];
    for (i, w) in words.iter().enumerate() {
        cache.insert(w, &i.to_string());
    }

    let keys = cache.keys();
    let mut sorted = words.to_vec();
    sorted.sort();
    assert_eq!(keys, sorted.iter().map(|w| w.to_string()).collect::<Vec<_>>());

    assert_eq!(cache.first().unwrap().0, "apple");
    assert_eq!(cache.last().unwrap().0, "quince");
}
