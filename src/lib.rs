//! An embedded key-value store over a segmented, append-only log.
//!
//! The library holds the log as byte images of its segment files, keeps an
//! in-memory index from each key to its latest record, and decides every
//! change to the log; writing those bytes to disk is left to the caller.
pub mod blob;
pub mod codec;
pub mod compaction;
pub mod config;
pub mod engine;
pub mod error;
pub mod index;
pub mod laws;
pub mod log;
pub mod naming;
pub mod schemas;
pub mod segment;
pub mod stats;
pub mod storage;
pub mod text;

pub use blob::key_to_blob_path;
pub use codec::{Record, RecordHeader};
pub use compaction::compact_segments;
pub use config::{FsyncPolicy, StoreConfig};
pub use engine::{Append, KVStore};
pub use error::StoreError;
pub use index::Index;
pub use schemas::{BlobMeta, KeyMeta, KeyValue, VolumeInfo, VolumeStatus};
pub use segment::Segment;
pub use stats::{Stats, StoreStats};
pub use storage::BlobStorage;
