use crabby_search::store::DocumentStore;

#[test]
fn ids_start_at_one_and_increase() {
    let mut store = DocumentStore::new();
    assert_eq!(store.next_id(), 1);
    let a = store.insert("a".to_string(), "first".to_string());
    let b = store.insert("b".to_string(), "second".to_string());
    assert_eq!(a.id, 1);
    assert_eq!(b.id, 2);
    assert_eq!(store.next_id(), 3);
    assert_eq!(store.get(2).unwrap().content, "second");
    assert!(store.get(3).is_none());
}

#[test]
fn removed_ids_are_not_reused() {
    let mut store = DocumentStore::new();
    store.insert("a".to_string(), "x".to_string());
    let removed = store.remove(1).unwrap();
    assert_eq!(removed.title, "a");
    assert!(store.remove(1).is_none());
    let c = store.insert("c".to_string(), "y".to_string());
    assert_eq!(c.id, 2);
}

#[test]
fn all_lists_documents_by_id() {
    let mut store = DocumentStore::new();
    for name in ["one", "two", "three"] {
        store.insert(name.to_string(), name.to_string());
    }
    store.remove(2);
    let ids: Vec<u64> = store.all().iter().map(|d| d.id).collect();
    assert_eq!(ids, vec![1, 3]);
    let titles: Vec<&str> = store.all().iter().map(|d| d.title.as_str()).collect();
    assert_eq!(titles, vec!["one", "three"]);
}

#[test]
fn history_keeps_exactly_the_live_inserts() {
    let mut store = DocumentStore::new();
    store.insert("a".to_string(), "first".to_string());
    store.insert("b".to_string(), "second".to_string());
    store.insert("c".to_string(), "third".to_string());
    assert!(store.remove(2).is_some());
    store.insert("d".to_string(), "fourth".to_string());
    assert!(store.remove(1).is_some());
    assert!(store.get(1).is_none());
    assert!(store.get(2).is_none());
    assert_eq!(store.get(3).unwrap().title, "c");
    assert_eq!(store.get(3).unwrap().content, "third");
    assert_eq!(store.get(4).unwrap().title, "d");
    assert_eq!(store.get(4).unwrap().content, "fourth");
    assert!(store.get(5).is_none());
}
