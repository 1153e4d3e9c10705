use search_engine::table::Table;

#[test]
fn table_insert_get_remove() {
    let mut t: Table<usize> = Table::new();
    assert_eq!(t.len(), 0);
    t.insert("a".to_string(), 1);
    t.insert("b".to_string(), 2);
    t.insert("a".to_string(), 5);
    assert_eq!(t.len(), 2);
    assert_eq!(t.get(&"a".to_string()), Some(&5));
    assert_eq!(t.checked_total(), Some(7));
    assert_eq!(t.remove(&"a".to_string()), Some(5));
    assert_eq!(t.remove(&"a".to_string()), None);
    assert_eq!(t.get(&"a".to_string()), None);
    assert_eq!(t.len(), 1);
    let (k, v) = t.entry_at(0);
    assert_eq!((k.as_str(), *v), ("b", 2));
}

#[test]
fn table_total_reports_overflow() {
    let mut t: Table<usize> = Table::new();
    t.insert("a".to_string(), usize::MAX);
    t.insert("b".to_string(), 1);
    assert_eq!(t.checked_total(), None);
}
