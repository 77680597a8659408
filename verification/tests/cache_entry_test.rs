use spectra_cache::Entry;

#[test]
fn test_create_new_cache_entry() {
    let value = "test_value";

    let entry = Entry::new(value, 0);

    assert_eq!(entry.value(), value);
    assert!(entry.ttl().is_none());
    assert!(!entry.is_expired(0));
}

#[test]
fn test_cache_entry_with_ttl() {
    let value = "test_value";
    let ttl = 50;

    let entry = Entry::with_ttl(value, Some(ttl), 0);

    assert_eq!(entry.ttl(), Some(ttl));
    assert!(!entry.is_expired(0));

    assert!(entry.is_expired(100));
}

#[test]
fn test_touch_updates_last_accessed() {
    let value = "test_value";
    let mut entry = Entry::new(value, 0);
    let initial_idle = entry.idle_time(10);

    entry.touch(10);

    assert!(entry.idle_time(10) < initial_idle);
}

#[test]
fn test_update_value() {
    let value1 = "value1";
    let value2 = "value2";
    let mut entry = Entry::new(value1, 0);

    entry.update_value(value2, 5);

    assert_eq!(entry.value(), value2);
}

#[test]
fn test_age_and_idle_time() {
    let value = "test_value";
    let mut entry = Entry::new(value, 0);

    let age = entry.age(20);
    let idle_time = entry.idle_time(20);

    assert!(age >= 20);
    assert!(idle_time >= 20);

    entry.touch(20);
    assert!(entry.idle_time(20) < idle_time);
    assert!(entry.age(20) >= age);
}
