//! Error lists for configuration validation.
//!
//! Validating a configuration collects every violated rule rather than
//! stopping at the first, so a caller can report all problems at once:
//! each `validate` returns either success or the full list of violations.

use vstd::prelude::*;

verus! {

/// Rules a compaction configuration can violate.
#[derive(Debug, Clone, Copy, PartialEq, Eq, Structural)]
pub enum CompactionConfigError {
    LevelSizeMultiplierTooLow(u8),
    MaxLevelTooSmall(u8),
    MaxLevelTooBig(u8),
    L0NotEnoughFiles(u8),
    TargetFileSizeTooLow(u64),
    MaxBytesTargetSizeMismatch,
}

/// Every compaction rule violated by one configuration.
#[derive(Debug)]
pub struct CompactionConfigErrors {
    pub errors: Vec<CompactionConfigError>,
}

impl CompactionConfigErrors {
    /// An empty violation list.
    pub fn new() -> (r: CompactionConfigErrors)
        ensures
            r.errors@.len() == 0,
    {
        CompactionConfigErrors { errors: Vec::new() }
    }
}

/// Rules a snapshot-retention or garbage-collection configuration can
/// violate.
#[derive(Debug, Clone, Copy, PartialEq, Eq, Structural)]
pub enum MvccConfigError {
    InvertedRange(usize, usize),
    MaxSnapShotTooHigh(usize),
    WarningThresholdBelowMax(u64, u64),
    GcBatchSizeTooSmall(usize),
}

/// Every multi-version-concurrency rule violated by one configuration.
#[derive(Debug)]
pub struct MvccConfigErrors {
    pub errors: Vec<MvccConfigError>,
}

impl MvccConfigErrors {
    /// An empty violation list.
    pub fn new() -> (r: MvccConfigErrors)
        ensures
            r.errors@.len() == 0,
    {
        MvccConfigErrors { errors: Vec::new() }
    }
}

/// Rules a performance configuration can violate.
#[derive(Debug, Clone, Copy, PartialEq, Eq, Structural)]
pub enum PerformanceConfigError {
    CompactionThreadsTooHigh(usize),
    ReadaheadSizeTooHigh(usize),
    WalBatchSizeZero,
    WalBatchBytesZero,
    WalPeriodicIntervalZero,
    ScanParallelismExceedsReadThreads(usize, usize),
}

/// Every performance rule violated by one configuration.
#[derive(Debug)]
pub struct PerformanceConfigErrors {
    pub errors: Vec<PerformanceConfigError>,
}

impl PerformanceConfigErrors {
    /// An empty violation list.
    pub fn new() -> (r: PerformanceConfigErrors)
        ensures
            r.errors@.len() == 0,
    {
        PerformanceConfigErrors { errors: Vec::new() }
    }
}

/// Rules a storage-engine configuration can violate.
#[derive(Debug, Clone, Copy, PartialEq, Eq, Structural)]
pub enum TaurusConfigError {
    BlockSizeNotPowerOfTwo(u64),
    BlockSizeTooSmall(u64),
    BlockSizeTooLarge(u64),
    MemtableSizeTooSmall(u64),
    MemtableSizeTooLarge(u64),
    MemtableSmallerThanBlock(u64, u64),
    BloomBitsPerKeyTooLow(u8),
    BloomBitsPerKeyTooHigh(u8),
}

/// Every storage-engine rule violated by one configuration.
#[derive(Debug)]
pub struct TaurusConfigErrors {
    pub errors: Vec<TaurusConfigError>,
}

impl TaurusConfigErrors {
    /// An empty violation list.
    pub fn new() -> (r: TaurusConfigErrors)
        ensures
            r.errors@.len() == 0,
    {
        TaurusConfigErrors { errors: Vec::new() }
    }
}

/// Rules a cache configuration can violate.
#[derive(Debug, Clone, Copy, PartialEq, Eq, Structural)]
pub enum CacheConfigError {
    BlockCacheSizeTooSmall(u64),
}

/// Every cache rule violated by one configuration.
#[derive(Debug)]
pub struct CacheConfigErrors {
    pub errors: Vec<CacheConfigError>,
}

impl CacheConfigErrors {
    /// An empty violation list.
    pub fn new() -> (r: CacheConfigErrors)
        ensures
            r.errors@.len() == 0,
    {
        CacheConfigErrors { errors: Vec::new() }
    }
}

} // verus!
