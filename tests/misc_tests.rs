use mini_kvstore_v2::{
    key_to_blob_path, FsyncPolicy, Record, RecordHeader, StoreConfig, StoreError, StoreStats,
    VolumeStatus,
};

#[test]
fn test_blob_path() {
    let path = key_to_blob_path("/tmp/data", "abcdef");
    assert!(path.contains("ab"));
    assert!(path.contains("abcdef"));
}

#[test]
fn blob_path_layout() {
    assert_eq!(key_to_blob_path("/tmp/data", "abcdef"), "/tmp/data/blobs/ab/abcdef");
    assert_eq!(key_to_blob_path("d", "k"), "d/blobs/xx/k");
}

#[test]
fn test_stats_display() {
    let stats = StoreStats {
        num_keys: 100,
        num_segments: 3,
        total_bytes: 1024 * 1024 * 2,
        active_segment_id: 2,
        oldest_segment_id: 0,
    };

    let display = stats.to_string();
    assert!(display.contains("Keys: 100"));
    assert!(display.contains("Segments: 3"));
    assert!(display.contains("2.00 MB"));
}

#[test]
fn stats_display_whole_text() {
    let stats = StoreStats {
        num_keys: 7,
        num_segments: 2,
        total_bytes: 1572864 + 10486,
        active_segment_id: 5,
        oldest_segment_id: 4,
    };
    assert_eq!(
        stats.to_string(),
        "Store Statistics:\n  Keys: 7\n  Segments: 2\n  Total size: 1.51 MB\n  Active segment: 5\n  Oldest segment: 4"
    );
    let small = StoreStats { total_bytes: 0, ..StoreStats::new() };
    assert!(small.to_string().contains("Total size: 0.00 MB"));
    let f = format!("{:.2}", 1572864.0f64 / 1048576.0);
    assert!(StoreStats { total_bytes: 1572864, ..StoreStats::new() }.to_string().contains(&f));
}

#[test]
fn stats_new_is_zero() {
    let s = StoreStats::new();
    assert_eq!(s.num_keys, 0);
    assert_eq!(s.num_segments, 0);
    assert_eq!(s.total_bytes, 0);
    assert_eq!(s.active_segment_id, 0);
    assert_eq!(s.oldest_segment_id, 0);
}

#[test]
fn fsync_policy_descriptions() {
    assert_eq!(FsyncPolicy::Always.as_str(), "fsync after every write");
    assert_eq!(FsyncPolicy::Interval.as_str(), "fsync at intervals");
    assert_eq!(FsyncPolicy::Never.as_str(), "never fsync");
}

#[test]
fn config_defaults_and_summary() {
    let c = StoreConfig::default();
    assert_eq!(c.max_segment_size, 16 * 1024 * 1024);
    assert_eq!(c.fsync_policy, FsyncPolicy::Always);
    let t = StoreConfig::test_config();
    assert_eq!(
        t.summary(),
        "StoreConfig: fsync_policy=never fsync, max_segment_size=524288 bytes, checksums=false, data_path=tests_data/temp, cache_segments=1, verbose_logging=false"
    );
}

#[test]
fn volume_status_names() {
    assert_eq!(VolumeStatus::Alive.to_string(), "Alive");
    assert_eq!(VolumeStatus::Down.to_string(), "Down");
    assert_eq!(VolumeStatus::Unknown.to_string(), "Unknown");
}

#[test]
fn record_header_round_trip() {
    let h = RecordHeader::new(3, 5, 0xdeadbeef);
    let mut out = Vec::new();
    h.write_to(&mut out);
    assert_eq!(out.len(), 20);
    assert_eq!(&out[0..8], &3u64.to_le_bytes());
    assert_eq!(&out[16..20], &0xdeadbeefu32.to_le_bytes());
    assert_eq!(RecordHeader::read_from(&out), Ok(h));
    assert!(!h.is_tombstone());
    assert!(RecordHeader::new(1, u64::MAX, 0).is_tombstone());
}

#[test]
fn record_header_short_buffer_is_io_error() {
    assert!(matches!(RecordHeader::read_from(&[0u8; 19]), Err(StoreError::Io(_))));
}

#[test]
fn record_constructors() {
    let r = Record::new(b"k".to_vec(), b"v".to_vec());
    assert!(!r.deleted);
    assert_eq!(r.value, b"v".to_vec());
    let t = Record::tombstone(b"k".to_vec());
    assert!(t.deleted);
    assert!(t.value.is_empty());
}
