use mini_kvstore_v2::codec::{decode_at, encode_put, encode_tombstone, Decoded};
use mini_kvstore_v2::{KVStore, Segment, StoreError};

const MIB: u64 = 1024 * 1024;

fn images(s: &KVStore) -> Vec<(usize, Vec<u8>)> {
    s.segment_files()
}

fn reopen(s: &KVStore) -> KVStore {
    KVStore::recover(&images(s), s.segment_size())
}

fn sorted_keys(s: &KVStore) -> Vec<String> {
    let mut k = s.list_keys();
    k.sort();
    k
}

fn record_keys(bytes: &[u8]) -> Vec<String> {
    let mut keys = Vec::new();
    let mut off = 0usize;
    while let Decoded::Record { key, size, .. } = decode_at(bytes, off) {
        keys.push(key);
        off += size;
    }
    keys
}

#[test]
fn read_your_writes_through_other_keys() {
    let mut s = KVStore::new(MIB);
    s.set("k", b"v").unwrap();
    s.set("other", b"x").unwrap();
    s.delete("other").unwrap();
    s.set("third", b"y").unwrap();
    assert_eq!(s.get("k").unwrap(), Some(b"v".to_vec()));
    s.set("k", b"w").unwrap();
    assert_eq!(s.get("k").unwrap(), Some(b"w".to_vec()));
}

#[test]
fn tombstone_hides_after_many_sets() {
    let mut s = KVStore::new(64);
    for i in 0..20 {
        s.set("k", format!("v{}", i).as_bytes()).unwrap();
    }
    s.delete("k").unwrap();
    s.set("other", b"x").unwrap();
    assert_eq!(s.get("k").unwrap(), None);
    assert_eq!(reopen(&s).get("k").unwrap(), None);
    s.set("k", b"back").unwrap();
    assert_eq!(s.get("k").unwrap(), Some(b"back".to_vec()));
}

#[test]
fn reopen_reproduces_state() {
    let mut s = KVStore::new(100);
    for i in 0..50 {
        s.set(&format!("k{}", i % 7), format!("v{}", i).as_bytes()).unwrap();
        if i % 5 == 0 {
            s.delete(&format!("k{}", (i + 3) % 7)).unwrap();
        }
    }
    let r = reopen(&s);
    assert_eq!(sorted_keys(&r), sorted_keys(&s));
    for k in s.list_keys() {
        assert_eq!(r.get(&k).unwrap(), s.get(&k).unwrap());
    }
    assert_eq!(images(&r), images(&s));
    assert!(s.stats().num_segments > 1);
}

#[test]
fn cut_active_segment_at_every_byte() {
    let mut s = KVStore::new(MIB);
    s.set("a", b"1").unwrap();
    s.set("b", b"2").unwrap();
    let before_c = s.segment_bytes(0).len();
    s.set("a", b"3").unwrap();
    let full = s.segment_bytes(0).to_vec();
    for n in 0..=full.len() {
        let r = KVStore::recover(&[(0, full[..n].to_vec())], MIB);
        let a = r.get("a").unwrap();
        if n == full.len() {
            assert_eq!(a, Some(b"3".to_vec()));
        } else if n >= before_c {
            assert_eq!(a, Some(b"1".to_vec()));
            assert_eq!(r.get("b").unwrap(), Some(b"2".to_vec()));
            assert_eq!(r.segment_bytes(0).len(), before_c);
        }
    }
}

#[test]
fn compaction_preserves_observable_state() {
    let mut s = KVStore::new(200);
    for i in 0..40 {
        s.set(&format!("k{}", i % 9), format!("v{}", i).as_bytes()).unwrap();
    }
    s.delete("k3").unwrap();
    let keys = sorted_keys(&s);
    let values: Vec<_> = keys.iter().map(|k| s.get(k).unwrap()).collect();
    s.compact();
    assert_eq!(sorted_keys(&s), keys);
    let after: Vec<_> = keys.iter().map(|k| s.get(k).unwrap()).collect();
    assert_eq!(after, values);
    assert_eq!(s.segment_ids()[0], 0);
}

#[test]
fn compaction_is_idempotent_on_bytes() {
    let mut s = KVStore::new(150);
    for i in 0..60 {
        s.set(&format!("key{}", i % 13), format!("value{}", i).as_bytes()).unwrap();
    }
    s.delete("key5").unwrap();
    s.compact();
    let once = images(&s);
    s.compact();
    assert_eq!(images(&s), once);
}

#[test]
fn every_changed_payload_byte_fails_checksum() {
    let rec = encode_put("key", b"value");
    for p in 20..rec.len() {
        let mut bad = rec.clone();
        bad[p] ^= 0x01;
        assert!(matches!(decode_at(&bad, 0), Decoded::ChecksumMismatch { .. }));
    }
    assert!(matches!(decode_at(&rec, 0), Decoded::Record { .. }));
}

#[test]
fn empty_value_is_not_missing() {
    let mut s = KVStore::new(MIB);
    s.set("k", b"").unwrap();
    assert_eq!(s.get("k").unwrap(), Some(Vec::new()));
    assert_eq!(s.get("absent").unwrap(), None);
    assert_eq!(reopen(&s).get("k").unwrap(), Some(Vec::new()));
}

#[test]
fn non_utf8_value_round_trips() {
    let mut s = KVStore::new(MIB);
    let v = vec![0xff, 0xfe, 0x00, 0x80, 0xc3];
    s.set("bin", &v).unwrap();
    assert_eq!(s.get("bin").unwrap(), Some(v.clone()));
    assert_eq!(reopen(&s).get("bin").unwrap(), Some(v));
}

#[test]
fn one_mib_value_round_trips() {
    let mut s = KVStore::new(MIB);
    let v: Vec<u8> = (0..MIB as usize).map(|i| (i % 251) as u8).collect();
    s.set("big", &v).unwrap();
    assert_eq!(s.get("big").unwrap(), Some(v.clone()));
    assert_eq!(reopen(&s).get("big").unwrap(), Some(v));
}

#[test]
fn ten_thousand_sets_rotate_segments() {
    let mut s = KVStore::new(4096);
    for i in 0..10_000 {
        s.set(&format!("key_{}", i), format!("value_{}", i).as_bytes()).unwrap();
    }
    for i in 0..10_000 {
        assert_eq!(
            s.get(&format!("key_{}", i)).unwrap(),
            Some(format!("value_{}", i).into_bytes())
        );
    }
    assert!(s.stats().num_segments > 1);
    assert_eq!(s.stats().num_keys, 10_000);
}

#[test]
fn basic_round_trip_scenario() {
    let mut s = KVStore::new(MIB);
    s.set("user:1:name", b"Alice").unwrap();
    s.set("user:1:email", b"alice@example.com").unwrap();
    assert_eq!(s.get("user:1:name").unwrap(), Some(b"Alice".to_vec()));
    assert_eq!(s.get("user:1:email").unwrap(), Some(b"alice@example.com".to_vec()));
    s.delete("user:1:email").unwrap();
    assert_eq!(s.get("user:1:email").unwrap(), None);
    assert_eq!(s.list_keys(), vec!["user:1:name".to_string()]);
}

#[test]
fn persistence_across_three_sessions() {
    let mut a = KVStore::new(MIB);
    a.set("session", b"first").unwrap();
    a.set("counter", b"42").unwrap();
    a.set("name", b"Test Store").unwrap();
    let mut b = reopen(&a);
    assert_eq!(b.get("session").unwrap(), Some(b"first".to_vec()));
    assert_eq!(b.get("counter").unwrap(), Some(b"42".to_vec()));
    assert_eq!(b.get("name").unwrap(), Some(b"Test Store".to_vec()));
    b.set("session", b"second").unwrap();
    b.set("counter", b"43").unwrap();
    b.delete("name").unwrap();
    let c = reopen(&b);
    assert_eq!(c.get("session").unwrap(), Some(b"second".to_vec()));
    assert_eq!(c.get("counter").unwrap(), Some(b"43".to_vec()));
    assert_eq!(c.get("name").unwrap(), None);
}

#[test]
fn compaction_keeps_latest_values() {
    let mut s = KVStore::new(MIB);
    for i in 0..10 {
        for j in 0..100 {
            s.set(&format!("key_{}", j), format!("value_{}_{}", j, i).as_bytes()).unwrap();
        }
    }
    let before = s.stats().total_bytes;
    s.compact();
    for j in 0..100 {
        assert_eq!(
            s.get(&format!("key_{}", j)).unwrap(),
            Some(format!("value_{}_9", j).into_bytes())
        );
    }
    assert_eq!(s.stats().num_keys, 100);
    assert!(s.stats().total_bytes < before);
}

#[test]
fn crash_in_the_middle_of_a_record() {
    let mut s = KVStore::new(MIB);
    s.set("r1", b"one").unwrap();
    s.set("r2", b"two").unwrap();
    let r3 = encode_put("r3", b"three");
    let mut bytes = s.segment_bytes(0).to_vec();
    bytes.extend_from_slice(&r3[..r3.len() / 2]);
    let r = KVStore::recover(&[(0, bytes)], MIB);
    assert_eq!(r.get("r1").unwrap(), Some(b"one".to_vec()));
    assert_eq!(r.get("r2").unwrap(), Some(b"two".to_vec()));
    assert_eq!(r.get("r3").unwrap(), None);
    assert_eq!(r.segment_bytes(0), s.segment_bytes(0));
}

#[test]
fn tombstone_survives_compaction() {
    let mut s = KVStore::new(MIB);
    s.set("k", b"v1").unwrap();
    s.delete("k").unwrap();
    s.compact();
    assert_eq!(s.get("k").unwrap(), None);
    assert!(!s.list_keys().contains(&"k".to_string()));
    for i in 0..s.segment_ids().len() {
        assert!(!record_keys(s.segment_bytes(i)).contains(&"k".to_string()));
    }
}

#[test]
fn checksum_detects_corruption() {
    let mut s = KVStore::new(MIB);
    s.set("k", b"v").unwrap();
    let mut bytes = s.segment_bytes(0).to_vec();
    let last = bytes.len() - 1;
    bytes[last] ^= 0xff;
    assert!(matches!(decode_at(&bytes, 0), Decoded::ChecksumMismatch { .. }));
    let r = KVStore::recover(&[(0, bytes)], MIB);
    assert_eq!(r.get("k").unwrap(), None);
    assert!(r.list_keys().is_empty());
}

#[test]
fn record_format_matches_layout() {
    let rec = encode_put("hello", b"world");
    assert_eq!(&rec[0..8], &5u64.to_le_bytes());
    assert_eq!(&rec[8..16], &5u64.to_le_bytes());
    assert_eq!(&rec[16..20], &crc32fast::hash(b"helloworld").to_le_bytes());
    assert_eq!(&rec[20..], b"helloworld");
    let t = encode_tombstone("gone");
    assert_eq!(&t[8..16], &u64::MAX.to_le_bytes());
    assert_eq!(&t[16..20], &crc32fast::hash(b"gone").to_le_bytes());
    assert_eq!(t.len(), 24);
}

#[test]
fn decode_round_trips_records() {
    let rec = encode_put("key", b"val");
    match decode_at(&rec, 0) {
        Decoded::Record { key, value, size } => {
            assert_eq!(key, "key");
            assert_eq!(value, Some(b"val".to_vec()));
            assert_eq!(size, rec.len());
        }
        _ => panic!("expected a record"),
    }
    let t = encode_tombstone("key");
    assert!(matches!(decode_at(&t, 0), Decoded::Record { value: None, .. }));
    assert!(matches!(decode_at(&rec, rec.len()), Decoded::EndOfFile));
    assert!(matches!(decode_at(&rec[..10], 0), Decoded::Truncated));
    assert!(matches!(decode_at(&rec[..rec.len() - 1], 0), Decoded::Truncated));
}

#[test]
fn invalid_utf8_key_is_rejected() {
    let payload = [0xffu8, 0xfe];
    let mut rec = Vec::new();
    rec.extend_from_slice(&2u64.to_le_bytes());
    rec.extend_from_slice(&u64::MAX.to_le_bytes());
    rec.extend_from_slice(&crc32fast::hash(&payload).to_le_bytes());
    rec.extend_from_slice(&payload);
    assert!(matches!(decode_at(&rec, 0), Decoded::InvalidKey));
}

#[test]
fn segment_id_overflow_is_an_io_error() {
    let first = encode_put("a", b"1");
    let mut s = KVStore::recover(&[(usize::MAX, first)], 1);
    assert!(matches!(s.set("b", b"2"), Err(StoreError::Io(_))));
    assert!(matches!(s.delete("a"), Err(StoreError::Io(_))));
    assert_eq!(s.get("a").unwrap(), Some(b"1".to_vec()));
    assert!(matches!(s.delete("absent"), Ok(None)));
}

#[test]
fn set_reports_the_append() {
    let mut s = KVStore::new(30);
    let a = s.set("k", b"v").unwrap();
    assert_eq!((a.segment_id, a.offset), (0, 0));
    assert_eq!(a.bytes, encode_put("k", b"v"));
    let b = s.set("k", b"w").unwrap();
    assert_eq!((b.segment_id, b.offset), (0, 22));
    let d = s.delete("k").unwrap().unwrap();
    assert_eq!((d.segment_id, d.offset), (1, 0));
    assert_eq!(d.bytes, encode_tombstone("k"));
    let st = s.stats();
    assert_eq!((st.num_segments, st.active_segment_id, st.oldest_segment_id), (2, 1, 0));
    assert_eq!(st.total_bytes, 44 + 21);
}

#[test]
fn recover_keeps_ids_and_skips_to_next_file_after_corruption() {
    let mut s0 = encode_put("a", b"1");
    s0.extend_from_slice(&[1, 2, 3]);
    let s1 = encode_put("b", b"2");
    let r = KVStore::recover(&[(3, s0), (8, s1)], MIB);
    assert_eq!(r.segment_ids(), vec![3, 8]);
    assert_eq!(r.get("a").unwrap(), Some(b"1".to_vec()));
    assert_eq!(r.get("b").unwrap(), Some(b"2".to_vec()));
    assert_eq!(r.stats().active_segment_id, 8);
    let empty = KVStore::recover(&[], MIB);
    assert_eq!(empty.segment_ids(), vec![0]);
}

#[test]
fn test_segment_append_and_read() {
    let mut seg = Segment::new(0, MIB);
    let offset = seg.append("hello", b"world");
    assert_eq!(offset, 0);
    let record = seg.read_record_at(0).unwrap();
    assert!(record.is_some());
    let (key, value) = record.unwrap();
    assert_eq!(key, "hello");
    assert_eq!(value, Some(b"world".to_vec()));
}

#[test]
fn test_segment_tombstone() {
    let mut seg = Segment::new(0, MIB);
    seg.append_tombstone("deleted_key");
    let record = seg.read_record_at(0).unwrap();
    assert!(record.is_some());
    let (key, value) = record.unwrap();
    assert_eq!(key, "deleted_key");
    assert!(value.is_none());
}

#[test]
fn test_checksum_validation() {
    let mut seg = Segment::new(0, MIB);
    seg.append("key", b"value");
    let result = seg.read_record_at(0);
    assert!(result.is_ok());
}

#[test]
fn segment_reads_past_end_and_mid_record() {
    let mut seg = Segment::new(4, 10);
    assert!(!seg.is_full());
    seg.append("key", b"value");
    assert!(seg.is_full());
    assert_eq!(seg.read_value_at(seg.len()).unwrap(), None);
    assert!(matches!(seg.read_record_at(1), Err(StoreError::CorruptedData(_))));
    assert_eq!(seg.read_value_at(0).unwrap(), Some(b"value".to_vec()));
    assert_eq!(Segment::record_size(3, 5), 28);
    assert_eq!(Segment::record_size(3, u64::MAX), 23);
    assert_eq!(seg.id(), 4);
}

#[test]
fn compaction_numbers_segments_from_zero() {
    let mut s = KVStore::recover(&[(7, encode_put("seed", b"x"))], 64);
    for i in 0..30 {
        s.set(&format!("key{}", i), b"some value").unwrap();
    }
    s.compact();
    let ids = s.segment_ids();
    assert!(ids.len() > 2);
    assert_eq!(ids, (0..ids.len()).collect::<Vec<usize>>());
    let files = s.segment_files();
    for (i, (id, bytes)) in files.iter().enumerate() {
        assert_eq!(*id, i);
        assert_eq!(bytes.as_slice(), s.segment_bytes(i));
    }
    let st = s.stats();
    assert_eq!((st.oldest_segment_id, st.active_segment_id), (0, ids.len() - 1));
    assert_eq!(st.num_segments, ids.len());
    assert_eq!(st.total_bytes, files.iter().map(|f| f.1.len() as u64).sum::<u64>());
}
