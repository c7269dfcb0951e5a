use mini_kvstore_v2::naming::{order_segment_files, parse_segment_file_name, segment_file_name};
use mini_kvstore_v2::codec::encode_put;
use mini_kvstore_v2::{KVStore, StoreError};

#[test]
fn segment_names_are_zero_padded() {
    assert_eq!(segment_file_name(0), "segment-0000.dat");
    assert_eq!(segment_file_name(42), "segment-0042.dat");
    assert_eq!(segment_file_name(12345), "segment-12345.dat");
}

#[test]
fn segment_names_parse_any_width() {
    assert_eq!(parse_segment_file_name("segment-0000.dat"), Some(0));
    assert_eq!(parse_segment_file_name("segment-7.dat"), Some(7));
    assert_eq!(parse_segment_file_name("segment-0123.dat"), Some(123));
    assert_eq!(parse_segment_file_name(&segment_file_name(98765)), Some(98765));
    assert_eq!(parse_segment_file_name("segment-.dat"), None);
    assert_eq!(parse_segment_file_name("segment-1a.dat"), None);
    assert_eq!(parse_segment_file_name("segment-1.log"), None);
    assert_eq!(parse_segment_file_name("notes.txt"), None);
    assert_eq!(parse_segment_file_name("segment-99999999999999999999999.dat"), None);
}

#[test]
fn segment_files_are_ordered_by_id() {
    let files = vec![(5, vec![5u8]), (0, vec![0u8]), (12, vec![12u8]), (3, vec![3u8])];
    let ordered = order_segment_files(files).unwrap();
    let ids: Vec<usize> = ordered.iter().map(|f| f.0).collect();
    assert_eq!(ids, vec![0, 3, 5, 12]);
    assert_eq!(ordered[2].1, vec![5u8]);
    assert!(order_segment_files(Vec::new()).unwrap().is_empty());
}

#[test]
fn duplicate_segment_ids_are_rejected() {
    let files = vec![(1, vec![1u8]), (2, vec![]), (1, vec![9u8])];
    assert!(matches!(order_segment_files(files), Err(StoreError::CorruptedData(_))));
}

#[test]
fn open_files_orders_then_replays() {
    let newer = encode_put("k", b"new");
    let older = encode_put("k", b"old");
    let s = KVStore::open_files(vec![(9, newer), (2, older)], 1024).unwrap();
    assert_eq!(s.get("k").unwrap(), Some(b"new".to_vec()));
    assert_eq!(s.segment_ids(), vec![2, 9]);
    let dup = KVStore::open_files(vec![(1, Vec::new()), (1, Vec::new())], 1024);
    assert!(matches!(dup, Err(StoreError::CorruptedData(_))));
}
