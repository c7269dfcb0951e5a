use mini_kvstore_v2::KVStore;

const LIMIT: u64 = 1024 * 1024;

fn reopen(s: &KVStore) -> KVStore {
    KVStore::recover(&s.segment_files(), s.segment_size())
}

#[test]
fn store_integration_can_set_and_get_value() {
    let mut store = KVStore::new(LIMIT);
    store.set("foo", b"bar").unwrap();
    assert_eq!(store.get("foo").unwrap(), Some(b"bar".to_vec()));
}

#[test]
fn store_integration_can_delete_value() {
    let mut store = KVStore::new(LIMIT);
    store.set("foo", b"bar").unwrap();
    store.delete("foo").unwrap();
    assert_eq!(store.get("foo").unwrap(), None);
}

#[test]
fn store_tests_can_set_and_get_value() {
    let mut store = KVStore::new(LIMIT);
    store.set("foo", b"bar").unwrap();
    assert_eq!(store.get("foo").unwrap(), Some(b"bar".to_vec()));
}

#[test]
fn store_tests_can_delete_value() {
    let mut store = KVStore::new(LIMIT);
    store.set("foo", b"bar").unwrap();
    store.delete("foo").unwrap();
    assert_eq!(store.get("foo").unwrap(), None);
}

#[test]
fn overwriting_value_updates_storage() {
    let mut store = KVStore::new(LIMIT);
    store.set("foo", b"1").unwrap();
    store.set("foo", b"2").unwrap();
    assert_eq!(store.get("foo").unwrap(), Some(b"2".to_vec()));
}

#[test]
fn missing_key_returns_none() {
    let store = KVStore::new(LIMIT);
    assert_eq!(store.get("does_not_exist").unwrap(), None);
}

#[test]
fn delete_nonexistent_key_is_safe() {
    let mut store = KVStore::new(LIMIT);
    store.delete("nope").unwrap();
    assert_eq!(store.get("nope").unwrap(), None);
}

#[test]
fn persistence_after_reopen() {
    let mut store = KVStore::new(LIMIT);
    store.set("persistent", b"value").unwrap();
    let store = reopen(&store);
    assert_eq!(store.get("persistent").unwrap(), Some(b"value".to_vec()));
}

#[test]
fn compaction_preserves_data() {
    let mut store = KVStore::new(LIMIT);
    store.set("key1", b"value1").unwrap();
    store.set("key2", b"value2").unwrap();
    store.set("key3", b"value3").unwrap();
    store.set("key1", b"updated1").unwrap();
    store.delete("key2").unwrap();
    store.compact();
    assert_eq!(store.get("key1").unwrap(), Some(b"updated1".to_vec()));
    assert_eq!(store.get("key2").unwrap(), None);
    assert_eq!(store.get("key3").unwrap(), Some(b"value3".to_vec()));
}

#[test]
fn large_value_handling() {
    let mut store = KVStore::new(LIMIT);
    let large = vec![b'x'; 1024 * 1024];
    store.set("large", &large).unwrap();
    assert_eq!(store.get("large").unwrap(), Some(large));
}

#[test]
fn utf8_keys_and_values() {
    let mut store = KVStore::new(LIMIT);
    store.set("key", "value".as_bytes()).unwrap();
    store.set("🔑", "🎉".as_bytes()).unwrap();
    assert_eq!(store.get("key").unwrap(), Some(b"value".to_vec()));
    assert_eq!(store.get("🔑").unwrap(), Some("🎉".as_bytes().to_vec()));
    let store = reopen(&store);
    assert_eq!(store.get("key").unwrap(), Some(b"value".to_vec()));
    assert_eq!(store.get("🔑").unwrap(), Some("🎉".as_bytes().to_vec()));
}

#[test]
fn empty_value() {
    let mut store = KVStore::new(LIMIT);
    store.set("empty", b"").unwrap();
    assert_eq!(store.get("empty").unwrap(), Some(Vec::new()));
}

#[test]
fn many_keys() {
    let mut store = KVStore::new(LIMIT);
    for i in 0..1000 {
        store.set(&format!("key_{}", i), format!("value_{}", i).as_bytes()).unwrap();
    }
    assert_eq!(store.get("key_0").unwrap(), Some(b"value_0".to_vec()));
    assert_eq!(store.get("key_500").unwrap(), Some(b"value_500".to_vec()));
    assert_eq!(store.get("key_999").unwrap(), Some(b"value_999".to_vec()));
    let stats = store.stats();
    assert_eq!(stats.num_keys, 1000);
}

#[test]
fn compaction_after_many_updates() {
    let mut store = KVStore::new(LIMIT);
    for round in 0..5 {
        for i in 0..100 {
            store.set(&format!("key_{}", i), format!("value_{}_{}", i, round).as_bytes()).unwrap();
        }
    }
    let stats_before = store.stats();
    store.compact();
    let stats_after = store.stats();
    assert!(stats_after.total_bytes < stats_before.total_bytes);
    for i in 0..100 {
        assert_eq!(
            store.get(&format!("key_{}", i)).unwrap(),
            Some(format!("value_{}_4", i).into_bytes())
        );
    }
}

#[test]
fn list_keys_works() {
    let mut store = KVStore::new(LIMIT);
    store.set("a", b"1").unwrap();
    store.set("b", b"2").unwrap();
    store.set("c", b"3").unwrap();
    let mut keys = store.list_keys();
    keys.sort();
    assert_eq!(keys.len(), 3);
    assert!(keys.contains(&"a".to_string()));
    assert!(keys.contains(&"b".to_string()));
    assert!(keys.contains(&"c".to_string()));
}

#[test]
fn persistence_after_compaction_and_reopen() {
    let mut store = KVStore::new(LIMIT);
    for i in 0..10 {
        store.set("key", format!("value_{}", i).as_bytes()).unwrap();
    }
    store.compact();
    let store = reopen(&store);
    assert_eq!(store.get("key").unwrap(), Some(b"value_9".to_vec()));
}

#[test]
fn test_compaction_preserves_data() {
    let mut store = KVStore::new(LIMIT);
    store.set("key1", b"value1").unwrap();
    store.set("key2", b"value2").unwrap();
    store.set("key3", b"value3").unwrap();
    store.set("key1", b"updated1").unwrap();
    store.delete("key2").unwrap();
    mini_kvstore_v2::compact_segments(&mut store);
    assert_eq!(store.get("key1").unwrap(), Some(b"updated1".to_vec()));
    assert_eq!(store.get("key2").unwrap(), None);
    assert_eq!(store.get("key3").unwrap(), Some(b"value3".to_vec()));
}

#[test]
fn test_compaction_reduces_size() {
    let mut store = KVStore::new(LIMIT);
    for i in 0..100 {
        store.set("key", format!("value_{}", i).as_bytes()).unwrap();
    }
    let stats_before = store.stats();
    mini_kvstore_v2::compact_segments(&mut store);
    let stats_after = store.stats();
    assert!(stats_after.total_bytes < stats_before.total_bytes);
    assert_eq!(store.get("key").unwrap(), Some(b"value_99".to_vec()));
}

#[test]
fn test_compaction_empty_store() {
    let mut store = KVStore::new(LIMIT);
    mini_kvstore_v2::compact_segments(&mut store);
    assert_eq!(store.stats().num_keys, 0);
}
