//! Records that describe keys and volumes to a coordinator.
use vstd::prelude::*;
use vstd::string::StringExecFns;

verus! {

/// What a coordinator knows of a key.
#[derive(Debug, Clone)]
pub struct KeyMeta {
    /// The key.
    pub key: String,
    /// Content hash of the value.
    pub etag: String,
    /// Value size in bytes.
    pub size: u64,
    /// Ids of the volumes that hold the key.
    pub replicas: Vec<String>,
}

/// What a coordinator knows of a volume.
#[derive(Debug, Clone)]
pub struct VolumeInfo {
    /// Volume id.
    pub id: String,
    /// Where the volume is reached.
    pub url: String,
    /// Health of the volume.
    pub status: VolumeStatus,
}

/// Health of a volume.
#[derive(Debug, Clone, Copy, PartialEq, Eq)]
pub enum VolumeStatus {
    Alive,
    Down,
    Unknown,
}

impl VolumeStatus {
    /// The status's name.
    pub fn to_string(&self) -> (r: String)
        ensures
            r@ == match self {
                VolumeStatus::Alive => "Alive"@,
                VolumeStatus::Down => "Down"@,
                VolumeStatus::Unknown => "Unknown"@,
            },
    {
        match self {
            VolumeStatus::Alive => String::from_str("Alive"),
            VolumeStatus::Down => String::from_str("Down"),
            VolumeStatus::Unknown => String::from_str("Unknown"),
        }
    }
}

/// A key and its value as text.
#[derive(Debug, Clone)]
pub struct KeyValue {
    pub key: String,
    pub value: String,
}

/// Metadata of a stored blob.
#[derive(Debug, Clone)]
pub struct BlobMeta {
    pub key: String,
    pub etag: String,
    pub size: u64,
    pub volume_id: String,
}

} // verus!
