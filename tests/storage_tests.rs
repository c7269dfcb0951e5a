use mini_kvstore_v2::codec::compute_checksum;
use mini_kvstore_v2::storage::{delete_status, etag_of, get_status, hex8_string, put_status};
use mini_kvstore_v2::{BlobStorage, KVStore, Stats, StoreError};

#[test]
fn etag_is_crc32_in_hex() {
    let data = b"test data";
    assert_eq!(etag_of(data), format!("{:08x}", crc32fast::hash(data)));
    assert_eq!(etag_of(b""), "00000000");
    assert_eq!(hex8_string(0xdeadbeef), "deadbeef");
    assert_eq!(hex8_string(0x0000_00af), "000000af");
}

#[test]
fn checksum_covers_key_then_value() {
    assert_eq!(compute_checksum(b"hello", b"world"), crc32fast::hash(b"helloworld"));
    assert_ne!(compute_checksum(b"hello", b"world"), compute_checksum(b"world", b"hello"));
}

#[test]
fn blob_put_get_delete() {
    let mut storage = BlobStorage::new(KVStore::new(1024 * 1024), "test-vol".to_string());
    let (meta, append) = storage.put("test-key", b"test data").unwrap();
    assert_eq!(meta.key, "test-key");
    assert_eq!(meta.size, 9);
    assert_eq!(meta.volume_id, "test-vol");
    assert_eq!(meta.etag, format!("{:08x}", crc32fast::hash(b"test data")));
    assert_eq!(append.offset, 0);
    assert_eq!(storage.get("test-key").unwrap(), Some(b"test data".to_vec()));
    assert_eq!(storage.list_keys(), vec!["test-key".to_string()]);
    assert!(storage.delete("test-key").unwrap().is_some());
    assert_eq!(storage.get("test-key").unwrap(), None);
    assert_eq!(storage.volume_id(), "test-vol");
    assert_eq!(storage.stats().num_keys, 0);
}

#[test]
fn blob_service_statuses() {
    let found: Result<Option<Vec<u8>>, StoreError> = Ok(Some(vec![1]));
    let missing: Result<Option<Vec<u8>>, StoreError> = Ok(None);
    let failed: Result<Option<Vec<u8>>, StoreError> = Err(StoreError::Io("disk".to_string()));
    assert_eq!(get_status(&found), 200);
    assert_eq!(get_status(&missing), 404);
    assert_eq!(get_status(&failed), 500);
    assert_eq!(put_status(&Ok::<(), StoreError>(())), 201);
    assert_eq!(put_status(&Err::<(), StoreError>(StoreError::Io("x".to_string()))), 500);
    assert_eq!(delete_status(&Ok::<(), StoreError>(())), 204);
    assert_eq!(delete_status(&Err::<(), StoreError>(StoreError::SegmentDisappeared)), 500);
}

#[test]
fn simple_stats_text() {
    let s = Stats { num_keys: 3, num_segments: 1, total_bytes: 120 };
    assert_eq!(s.to_string(), "Stats { keys: 3, segments: 1, bytes: 120 }");
}
