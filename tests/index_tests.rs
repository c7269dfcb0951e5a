use mini_kvstore_v2::Index;

#[test]
fn test_index_basic_operations() {
    let mut index = Index::new();

    assert!(index.is_empty());

    index.insert("key1".to_string(), 0, 100, 50);
    index.insert("key2".to_string(), 1, 200, 75);

    assert_eq!(index.len(), 2);
    assert!(!index.is_empty());

    assert_eq!(index.get("key1"), Some(&(0, 100, 50)));
    assert_eq!(index.get("key2"), Some(&(1, 200, 75)));
    assert_eq!(index.get("key3"), None);

    assert!(index.contains("key1"));
    assert!(!index.contains("key3"));
}

#[test]
fn test_index_update() {
    let mut index = Index::new();

    index.insert("key".to_string(), 0, 100, 50);
    index.insert("key".to_string(), 1, 200, 75);

    assert_eq!(index.len(), 1);
    assert_eq!(index.get("key"), Some(&(1, 200, 75)));
}

#[test]
fn test_index_remove() {
    let mut index = Index::new();

    index.insert("key".to_string(), 0, 100, 50);
    let removed = index.remove("key");

    assert_eq!(removed, Some((0, 100, 50)));
    assert!(index.is_empty());
    assert_eq!(index.remove("key"), None);
}

#[test]
fn test_index_clear() {
    let mut index = Index::new();

    index.insert("key1".to_string(), 0, 100, 50);
    index.insert("key2".to_string(), 1, 200, 75);

    index.clear();

    assert!(index.is_empty());
}

#[test]
fn index_keys_follow_insertion_and_swap_on_remove() {
    let mut index = Index::new();
    index.insert("a".to_string(), 0, 0, 1);
    index.insert("b".to_string(), 0, 21, 1);
    index.insert("c".to_string(), 0, 42, 1);
    index.insert("b".to_string(), 1, 0, 2);
    assert_eq!(index.keys(), vec!["a".to_string(), "b".to_string(), "c".to_string()]);
    assert_eq!(index.remove("a"), Some((0, 0, 1)));
    assert_eq!(index.keys(), vec!["c".to_string(), "b".to_string()]);
    assert_eq!(index.get("c"), Some(&(0, 42, 1)));
    assert_eq!(index.get("b"), Some(&(1, 0, 2)));
    assert_eq!(index.len(), 2);
}
