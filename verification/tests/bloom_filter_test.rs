use spectra_cache::BloomFilter;

#[test]
fn test_create_empty_filter() {
    let filter = BloomFilter::new(1000, 1, 100).unwrap();
    assert_eq!(filter.size(), 0);
    assert!(filter.is_empty());
}

#[test]
fn test_insert_and_contains() {
    let mut filter = BloomFilter::new(1000, 1, 100).unwrap();
    let key = String::from("test_key");

    assert!(!filter.contains(&key));
    filter.insert(&key);
    assert!(filter.contains(&key));
    assert_eq!(filter.size(), 1);
    assert!(!filter.is_empty());
}

#[test]
fn test_multiple_insertions() {
    let mut filter = BloomFilter::new(1000, 1, 100).unwrap();

    let keys = vec![
        String::from("key1"),
        String::from("key2"),
        String::from("key3"),
        String::from("key4"),
        String::from("key5"),
    ];
    for key in &keys {
        filter.insert(key);
    }

    for key in &keys {
        assert!(filter.contains(key));
    }

    assert!(!filter.contains(&String::from("non_existent_key")));
    assert_eq!(filter.size(), 5);
}

#[test]
fn test_false_positive_rate() {
    let mut filter = BloomFilter::new(1000, 1, 100).unwrap();
    let num_insertions = 100;
    let num_checks = 1000;

    for i in 0..num_insertions {
        filter.insert(&format!("key{}", i));
    }

    let mut false_positives = 0;
    for i in 0..num_checks {
        if filter.contains(&format!("non_existent{}", i)) {
            false_positives += 1;
        }
    }

    let actual_rate = false_positives as f64 / num_checks as f64;
    assert!(actual_rate <= 0.01, "False positive rate {} exceeds expected 0.01", actual_rate);
}

#[test]
fn bloom_filter_test_test_clear() {
    let mut filter = BloomFilter::new(1000, 1, 100).unwrap();

    filter.insert(&String::from("key1"));
    filter.insert(&String::from("key2"));
    assert_eq!(filter.size(), 2);

    filter.clear();
    assert!(filter.is_empty());
    assert_eq!(filter.size(), 0);
    assert!(!filter.contains(&String::from("key1")));
    assert!(!filter.contains(&String::from("key2")));
}

#[test]
fn test_capacity() {
    let capacity = 100;
    let mut filter = BloomFilter::new(capacity, 1, 100).unwrap();

    for i in 0..capacity {
        filter.insert(&format!("key{}", i));
    }

    assert_eq!(filter.size(), capacity);

    filter.insert(&String::from("extra_key"));
    assert_eq!(filter.size(), capacity + 1);
}

#[test]
fn test_merge() {
    let mut filter1 = BloomFilter::new(1000, 1, 100).unwrap();
    let mut filter2 = BloomFilter::new(1000, 1, 100).unwrap();

    filter1.insert(&String::from("key1"));
    filter1.insert(&String::from("key2"));

    filter2.insert(&String::from("key2"));
    filter2.insert(&String::from("key3"));

    filter1.merge(&filter2).unwrap();

    assert!(filter1.contains(&String::from("key1")));
    assert!(filter1.contains(&String::from("key2")));
    assert!(filter1.contains(&String::from("key3")));
    assert_eq!(filter1.size(), 3);
}
