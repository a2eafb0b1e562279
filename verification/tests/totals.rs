use language_stats::totals::ByteTotals;

#[test]
fn from_pairs_later_value_replaces_earlier() {
    let t = ByteTotals::from_pairs(vec![("Rust".to_string(), 1), ("Go".to_string(), 2), ("Rust".to_string(), 3)]);
    assert_eq!(t.len(), 2);
    assert_eq!(t.get("Rust"), Some(3));
    assert_eq!(t.get("Go"), Some(2));
    assert_eq!(t.get("C"), None);
}

#[test]
fn add_accumulates_and_total_checks_overflow() {
    let mut t = ByteTotals::new();
    t.add("Rust".to_string(), 5);
    t.add("Rust".to_string(), 7);
    assert_eq!(t.get("Rust"), Some(12));
    assert_eq!(t.total_bytes(), Some(12));
    t.insert("Big".to_string(), u64::MAX);
    assert_eq!(t.total_bytes(), None);
}
