//! Store configuration.
use crate::text::{decimal_spec, push_decimal};
use vstd::prelude::*;
use vstd::string::StringExecFns;

verus! {

/// When appends are flushed to stable storage.
#[derive(Debug, Clone, Copy, PartialEq, Eq)]
pub enum FsyncPolicy {
    /// Fsync after every write.
    Always,
    /// Fsync at intervals.
    Interval,
    /// Never fsync: fast, and not crash-safe.
    Never,
}

impl FsyncPolicy {
    /// A human-readable description of the policy.
    pub fn as_str(&self) -> (r: &'static str)
        ensures
            r@ == self.as_str_spec(),
    {
        match self {
            FsyncPolicy::Always => "fsync after every write",
            FsyncPolicy::Interval => "fsync at intervals",
            FsyncPolicy::Never => "never fsync",
        }
    }
}

/// The text of a flag.
pub open spec fn bool_text(b: bool) -> Seq<char> {
    if b {
        "true"@
    } else {
        "false"@
    }
}

fn push_bool(s: &mut String, b: bool)
    ensures
        final(s)@ == old(s)@ + bool_text(b),
{
    if b {
        s.append("true");
    } else {
        s.append("false");
    }
}

/// Complete store configuration.
#[derive(Debug)]
pub struct StoreConfig {
    /// Fsync policy to use.
    pub fsync_policy: FsyncPolicy,
    /// Size in bytes at which a segment is full.
    pub max_segment_size: u64,
    /// Whether record checksums are enabled.
    pub enable_checksums: bool,
    /// Directory of the store's data.
    pub data_path: String,
    /// Number of segments to keep in memory.
    pub cache_segments: usize,
    /// Whether operations are logged verbosely.
    pub verbose_logging: bool,
}

impl Default for StoreConfig {
    fn default() -> (r: StoreConfig)
        ensures
            r.fsync_policy == FsyncPolicy::Always,
            r.max_segment_size == 16777216,
            r.enable_checksums,
            r.data_path@ == "data"@,
            r.cache_segments == 4,
            !r.verbose_logging,
    {
        StoreConfig {
            fsync_policy: FsyncPolicy::Always,
            max_segment_size: 16777216,
            enable_checksums: true,
            data_path: String::from_str("data"),
            cache_segments: 4,
            verbose_logging: false,
        }
    }
}

impl StoreConfig {
    /// A configuration for tests: no fsync, small segments, no checksums.
    pub fn test_config() -> (r: StoreConfig)
        ensures
            r.fsync_policy == FsyncPolicy::Never,
            r.max_segment_size == 524288,
            !r.enable_checksums,
            r.data_path@ == "tests_data/temp"@,
            r.cache_segments == 1,
            !r.verbose_logging,
    {
        StoreConfig {
            fsync_policy: FsyncPolicy::Never,
            max_segment_size: 524288,
            enable_checksums: false,
            data_path: String::from_str("tests_data/temp"),
            cache_segments: 1,
            verbose_logging: false,
        }
    }

    /// A one-line summary of every option.
    pub fn summary(&self) -> (r: String)
        ensures
            r@ == "StoreConfig: fsync_policy="@ + self.fsync_policy.as_str_spec()
                + ", max_segment_size="@ + decimal_spec(self.max_segment_size as nat) + " bytes, checksums="@
                + bool_text(self.enable_checksums) + ", data_path="@ + self.data_path@
                + ", cache_segments="@ + decimal_spec(self.cache_segments as nat)
                + ", verbose_logging="@ + bool_text(self.verbose_logging),
    {
        let mut s = String::from_str("StoreConfig: fsync_policy=");
        s.append(self.fsync_policy.as_str());
        s.append(", max_segment_size=");
        push_decimal(&mut s, self.max_segment_size);
        s.append(" bytes, checksums=");
        push_bool(&mut s, self.enable_checksums);
        s.append(", data_path=");
        s.append(self.data_path.as_str());
        s.append(", cache_segments=");
        push_decimal(&mut s, self.cache_segments as u64);
        s.append(", verbose_logging=");
        push_bool(&mut s, self.verbose_logging);
        s
    }
}

impl FsyncPolicy {
    /// The description that `as_str` returns.
    pub open spec fn as_str_spec(&self) -> Seq<char> {
        match self {
            FsyncPolicy::Always => "fsync after every write"@,
            FsyncPolicy::Interval => "fsync at intervals"@,
            FsyncPolicy::Never => "never fsync"@,
        }
    }
}

} // verus!
