use taurus::config::cache::CacheConfig;
use taurus::config::compaction::{CompactionConfig, CompactionStrategy};
use taurus::config::mvcc::MvccConfig;
use taurus::config::performance::{PerformanceConfig, WalSyncMode};
use taurus::config::tconfig::{CompressionType, TaurusConfig};
use taurus::config_errors::{
    CacheConfigError, CompactionConfigError, MvccConfigError, PerformanceConfigError,
    TaurusConfigError,
};

#[test]
fn test_default_configs_validate() {
    assert!(CacheConfig::default().validate().is_ok());
    assert!(CompactionConfig::default().validate().is_ok());
    assert!(MvccConfig::default().validate().is_ok());
    assert!(TaurusConfig::default().validate().is_ok());
    assert!(PerformanceConfig::default().validate().is_ok());
}

#[test]
fn test_cache_block_size_too_small() {
    let config = CacheConfig::with_block_cache_size(1024);
    let errors = config.validate().unwrap_err().errors;
    assert_eq!(errors, vec![CacheConfigError::BlockCacheSizeTooSmall(1024)]);
}

#[test]
fn test_compaction_rules_collected_together() {
    // multiplier below 2, only 1 level, level 0 triggering on 1 file and
    // an undersized target are all reported at once
    let config = CompactionConfig::new(CompactionStrategy::Tiered, 1, 1, 1, 512, 1024);
    let errors = config.validate().unwrap_err().errors;
    assert_eq!(
        errors,
        vec![
            CompactionConfigError::LevelSizeMultiplierTooLow(1),
            CompactionConfigError::MaxLevelTooSmall(1),
            CompactionConfigError::L0NotEnoughFiles(1),
            CompactionConfigError::TargetFileSizeTooLow(1024),
            CompactionConfigError::MaxBytesTargetSizeMismatch,
        ]
    );
}

#[test]
fn test_compaction_too_many_levels() {
    let config = CompactionConfig::new(
        CompactionStrategy::Leveled,
        10,
        11,
        10,
        512 * 1024 * 1024,
        64 * 1024 * 1024,
    );
    let errors = config.validate().unwrap_err().errors;
    assert_eq!(errors, vec![CompactionConfigError::MaxLevelTooBig(11)]);
}

#[test]
fn test_mvcc_rules_collected_together() {
    let mut config = MvccConfig::default();
    config.snapshot_retention.min_snapshots = 50;
    config.snapshot_retention.max_snapshots = 50;
    config.gc_config.gc_batch_size = 10;
    let errors = config.validate().unwrap_err().errors;
    assert_eq!(
        errors,
        vec![
            MvccConfigError::InvertedRange(50, 50),
            MvccConfigError::GcBatchSizeTooSmall(10),
        ]
    );
}

#[test]
fn test_mvcc_max_snapshots_cap() {
    let mut config = MvccConfig::default();
    config.snapshot_retention.max_snapshots = 10001;
    let errors = config.validate().unwrap_err().errors;
    assert_eq!(errors, vec![MvccConfigError::MaxSnapShotTooHigh(10001)]);
}

#[test]
fn test_mvcc_warning_threshold_rule() {
    let mut config = MvccConfig::default();
    config.snapshot_age_warning_threshold_secs = 7200;
    let errors = config.validate().unwrap_err().errors;
    assert_eq!(
        errors,
        vec![MvccConfigError::WarningThresholdBelowMax(7200, 3600)]
    );
}

#[test]
fn test_performance_batch_mode_knobs_must_be_nonzero() {
    let mut config = PerformanceConfig::default();
    config.wal_sync.mode = WalSyncMode::Batch;
    config.wal_sync.batch_size = 0;
    config.wal_sync.batch_bytes = 0;
    let errors = config.validate_with_cpus(4).unwrap_err().errors;
    assert_eq!(
        errors,
        vec![
            PerformanceConfigError::WalBatchSizeZero,
            PerformanceConfigError::WalBatchBytesZero,
        ]
    );
}

#[test]
fn test_performance_periodic_mode_interval_must_be_nonzero() {
    let mut config = PerformanceConfig::default();
    config.wal_sync.mode = WalSyncMode::Periodic;
    config.wal_sync.periodic_interval_ms = 0;
    let errors = config.validate_with_cpus(4).unwrap_err().errors;
    assert_eq!(errors, vec![PerformanceConfigError::WalPeriodicIntervalZero]);
}

#[test]
fn test_performance_thread_and_readahead_rules() {
    let mut config = PerformanceConfig::default();
    config.compaction_threads = 9;
    config.readahead_size = 128 * 1024 * 1024;
    config.parallelism.scan_parallelism = 16;
    let errors = config.validate_with_cpus(4).unwrap_err().errors;
    assert_eq!(
        errors,
        vec![
            PerformanceConfigError::CompactionThreadsTooHigh(9),
            PerformanceConfigError::ReadaheadSizeTooHigh(128 * 1024 * 1024),
            PerformanceConfigError::ScanParallelismExceedsReadThreads(16, 8),
        ]
    );
}

#[test]
fn test_taurus_block_size_rules() {
    let config = TaurusConfig::new(3000, 64 * 1024 * 1024, CompressionType::LZ4, 10);
    let errors = config.validate().unwrap_err().errors;
    assert_eq!(
        errors,
        vec![
            TaurusConfigError::BlockSizeNotPowerOfTwo(3000),
            TaurusConfigError::BlockSizeTooSmall(3000),
        ]
    );
}

#[test]
fn test_taurus_block_size_too_large() {
    let config = TaurusConfig::new(256 * 1024, 64 * 1024 * 1024, CompressionType::Snappy, 10);
    let errors = config.validate().unwrap_err().errors;
    assert_eq!(errors, vec![TaurusConfigError::BlockSizeTooLarge(256 * 1024)]);
}

#[test]
fn test_taurus_memtable_rules() {
    let config = TaurusConfig::new(32 * 1024, 16 * 1024, CompressionType::Zstd, 10);
    let errors = config.validate().unwrap_err().errors;
    assert_eq!(
        errors,
        vec![
            TaurusConfigError::MemtableSizeTooSmall(16 * 1024),
            TaurusConfigError::MemtableSmallerThanBlock(16 * 1024, 32 * 1024),
        ]
    );
}

#[test]
fn test_taurus_memtable_too_large() {
    let config = TaurusConfig::new(32 * 1024, 2 * 1024 * 1024 * 1024, CompressionType::Uncompressed, 10);
    let errors = config.validate().unwrap_err().errors;
    assert_eq!(
        errors,
        vec![TaurusConfigError::MemtableSizeTooLarge(2 * 1024 * 1024 * 1024)]
    );
}

#[test]
fn test_taurus_bloom_bits_rules() {
    let low = TaurusConfig::new(32 * 1024, 64 * 1024 * 1024, CompressionType::LZ4, 3);
    assert_eq!(
        low.validate().unwrap_err().errors,
        vec![TaurusConfigError::BloomBitsPerKeyTooLow(3)]
    );
    let high = TaurusConfig::new(32 * 1024, 64 * 1024 * 1024, CompressionType::LZ4, 21);
    assert_eq!(
        high.validate().unwrap_err().errors,
        vec![TaurusConfigError::BloomBitsPerKeyTooHigh(21)]
    );
}
