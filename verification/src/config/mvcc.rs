//! Snapshot-retention and garbage-collection configuration.

use vstd::prelude::*;

use crate::config_errors::{MvccConfigError, MvccConfigErrors};

verus! {

pub const DEFAULT_MIN_SNAPSHOTS: usize = 5;

pub const DEFAULT_MAX_SNAPSHOTS: usize = 1000;

pub const DEFAULT_SNAPSHOT_AGE_SECS: u64 = 3600;

pub const DEFAULT_GC_INTERVAL_SECS: u64 = 300;

pub const DEFAULT_GC_BATCH_SIZE: usize = 1000;

pub const DEFAULT_MIN_OBSOLETE_VERSIONS: usize = 10000;

pub const DEFAULT_SNAPSHOT_AGE_WARNING_THRESHOLD_SECS: u64 = 1800;

/// How many snapshots are kept and for how long.
#[derive(Debug)]
pub struct SnapshotRetentionPolicy {
    pub min_snapshots: usize,
    pub max_snapshots: usize,
    pub max_snapshot_age_secs: u64,
}

impl Default for SnapshotRetentionPolicy {
    /// Keep between 5 and 1000 snapshots, each for up to an hour.
    fn default() -> (r: SnapshotRetentionPolicy)
        ensures
            r.min_snapshots == DEFAULT_MIN_SNAPSHOTS,
            r.max_snapshots == DEFAULT_MAX_SNAPSHOTS,
            r.max_snapshot_age_secs == DEFAULT_SNAPSHOT_AGE_SECS,
    {
        SnapshotRetentionPolicy {
            min_snapshots: DEFAULT_MIN_SNAPSHOTS,
            max_snapshots: DEFAULT_MAX_SNAPSHOTS,
            max_snapshot_age_secs: DEFAULT_SNAPSHOT_AGE_SECS,
        }
    }
}

/// How often obsolete versions are collected, and in what batches.
#[derive(Debug)]
pub struct GarbageCollectionConfig {
    pub gc_interval_secs: u64,
    pub gc_batch_size: usize,
    pub min_obsolete_versions: usize,
}

impl Default for GarbageCollectionConfig {
    /// Collect every 5 minutes, 1000 versions at a time.
    fn default() -> (r: GarbageCollectionConfig)
        ensures
            r.gc_interval_secs == DEFAULT_GC_INTERVAL_SECS,
            r.gc_batch_size == DEFAULT_GC_BATCH_SIZE,
            r.min_obsolete_versions == DEFAULT_MIN_OBSOLETE_VERSIONS,
    {
        GarbageCollectionConfig {
            gc_interval_secs: DEFAULT_GC_INTERVAL_SECS,
            gc_batch_size: DEFAULT_GC_BATCH_SIZE,
            min_obsolete_versions: DEFAULT_MIN_OBSOLETE_VERSIONS,
        }
    }
}

/// Multi-version concurrency knobs: retention, collection and warning
/// threshold.
#[derive(Debug)]
pub struct MvccConfig {
    pub snapshot_retention: SnapshotRetentionPolicy,
    pub gc_config: GarbageCollectionConfig,
    pub snapshot_age_warning_threshold_secs: u64,
}

impl Default for MvccConfig {
    /// The default retention and collection policies, warning after half
    /// an hour.
    fn default() -> (r: MvccConfig)
        ensures
            r.snapshot_retention.min_snapshots == DEFAULT_MIN_SNAPSHOTS,
            r.snapshot_retention.max_snapshots == DEFAULT_MAX_SNAPSHOTS,
            r.snapshot_retention.max_snapshot_age_secs == DEFAULT_SNAPSHOT_AGE_SECS,
            r.gc_config.gc_interval_secs == DEFAULT_GC_INTERVAL_SECS,
            r.gc_config.gc_batch_size == DEFAULT_GC_BATCH_SIZE,
            r.gc_config.min_obsolete_versions == DEFAULT_MIN_OBSOLETE_VERSIONS,
            r.snapshot_age_warning_threshold_secs == DEFAULT_SNAPSHOT_AGE_WARNING_THRESHOLD_SECS,
    {
        MvccConfig {
            snapshot_retention: SnapshotRetentionPolicy::default(),
            gc_config: GarbageCollectionConfig::default(),
            snapshot_age_warning_threshold_secs: DEFAULT_SNAPSHOT_AGE_WARNING_THRESHOLD_SECS,
        }
    }
}

/// The rules one configuration violates, in checking order.
pub open spec fn spec_mvcc_errors(c: MvccConfig) -> Seq<MvccConfigError> {
    (if c.snapshot_retention.min_snapshots >= c.snapshot_retention.max_snapshots {
        seq![
            MvccConfigError::InvertedRange(
                c.snapshot_retention.min_snapshots,
                c.snapshot_retention.max_snapshots,
            ),
        ]
    } else {
        Seq::empty()
    }) + (if c.snapshot_retention.max_snapshots > 10000 {
        seq![MvccConfigError::MaxSnapShotTooHigh(c.snapshot_retention.max_snapshots)]
    } else {
        Seq::empty()
    }) + (if c.snapshot_age_warning_threshold_secs
        >= c.snapshot_retention.max_snapshot_age_secs {
        seq![
            MvccConfigError::WarningThresholdBelowMax(
                c.snapshot_age_warning_threshold_secs,
                c.snapshot_retention.max_snapshot_age_secs,
            ),
        ]
    } else {
        Seq::empty()
    }) + (if c.gc_config.gc_batch_size < 100 {
        seq![MvccConfigError::GcBatchSizeTooSmall(c.gc_config.gc_batch_size)]
    } else {
        Seq::empty()
    })
}

impl MvccConfig {
    /// Checks every rule: the snapshot range is not inverted, at most
    /// 10000 snapshots are retained, the warning threshold stays below
    /// the maximum age, and collection batches hold at least 100
    /// versions. Returns success or the full list of violations.
    pub fn validate(&self) -> (r: Result<(), MvccConfigErrors>)
        ensures
            match r {
                Ok(()) => spec_mvcc_errors(*self).len() == 0,
                Err(e) => e.errors@ == spec_mvcc_errors(*self) && e.errors@.len() > 0,
            },
    {
        let mut err = MvccConfigErrors::new();
        if self.snapshot_retention.min_snapshots >= self.snapshot_retention.max_snapshots {
            err.errors.push(
                MvccConfigError::InvertedRange(
                    self.snapshot_retention.min_snapshots,
                    self.snapshot_retention.max_snapshots,
                ),
            );
        }
        if self.snapshot_retention.max_snapshots > 10000 {
            err.errors.push(
                MvccConfigError::MaxSnapShotTooHigh(self.snapshot_retention.max_snapshots),
            );
        }
        if self.snapshot_age_warning_threshold_secs
            >= self.snapshot_retention.max_snapshot_age_secs {
            err.errors.push(
                MvccConfigError::WarningThresholdBelowMax(
                    self.snapshot_age_warning_threshold_secs,
                    self.snapshot_retention.max_snapshot_age_secs,
                ),
            );
        }
        if self.gc_config.gc_batch_size < 100 {
            err.errors.push(MvccConfigError::GcBatchSizeTooSmall(self.gc_config.gc_batch_size));
        }
        proof {
            assert(err.errors@ =~= spec_mvcc_errors(*self));
        }
        if err.errors.len() == 0 {
            return Ok(());
        }
        Err(err)
    }
}

} // verus!
