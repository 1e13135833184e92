use rgitstats::counter::Counter;

#[test]
fn new_counter_is_empty() {
    let counter = Counter::new();
    assert!(counter.is_empty());
    assert_eq!(counter.get(&"a".to_string()), 0);
    assert_eq!(counter.find(&"a".to_string()), None);
}

#[test]
fn increment_counts_by_one() {
    let mut counter = Counter::new();
    counter.increment("a".to_string());
    counter.increment("b".to_string());
    counter.increment("a".to_string());
    assert!(!counter.is_empty());
    assert_eq!(counter.get(&"a".to_string()), 2);
    assert_eq!(counter.get(&"b".to_string()), 1);
    assert_eq!(counter.get(&"c".to_string()), 0);
    assert_eq!(counter.entries, vec![("a".to_string(), 2), ("b".to_string(), 1)]);
    assert_eq!(counter.find(&"b".to_string()), Some(1));
}

#[test]
fn insert_replaces() {
    let mut counter = Counter::new();
    counter.insert("a".to_string(), 5);
    counter.insert("b".to_string(), 0);
    counter.insert("a".to_string(), 7);
    assert_eq!(counter.entries, vec![("a".to_string(), 7), ("b".to_string(), 0)]);
    counter.increment("b".to_string());
    assert_eq!(counter.get(&"b".to_string()), 1);
}
