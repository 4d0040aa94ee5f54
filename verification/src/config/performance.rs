//! Thread, readahead and log-sync configuration.

use vstd::prelude::*;

use crate::config_errors::{PerformanceConfigError, PerformanceConfigErrors};

verus! {

pub const DEFAULT_READAHEAD_SIZE: usize = 4 * 1024 * 1024;

pub const DEFAULT_BATCH_SIZE: usize = 1000;

pub const DEFAULT_BATCH_BYTES: usize = 4 * 1024 * 1024;

pub const DEFAULT_PERIODIC_INTERVAL_MS: u64 = 1000;

pub const DEFAULT_MAX_READ_THREADS: usize = 8;

pub const DEFAULT_MAX_WRITE_THREADS: usize = 4;

pub const DEFAULT_SCAN_PARALLELISM: usize = 2;

/// Relies on num_cpus::get: the number of logical processors available
/// to this process; its documentation promises at least 1.
#[verifier::external_body]
fn cpu_count() -> (n: usize)
    ensures
        n >= 1,
{
    num_cpus::get()
}

/// When appended log records are made durable.
#[derive(Debug, Clone, Copy)]
pub enum WalSyncMode {
    EveryWrite,
    Batch,
    Periodic,
}

/// The sync policy for the write-ahead log: in its active mode, the
/// batch size, batch bytes or periodic interval must be non-zero.
#[derive(Debug)]
pub struct WalSyncConfig {
    pub mode: WalSyncMode,
    pub batch_size: usize,
    pub batch_bytes: usize,
    pub periodic_interval_ms: u64,
}

impl Default for WalSyncConfig {
    /// Batched sync: every 1000 records or 4 MiB.
    fn default() -> (r: WalSyncConfig)
        ensures
            r.mode is Batch,
            r.batch_size == DEFAULT_BATCH_SIZE,
            r.batch_bytes == DEFAULT_BATCH_BYTES,
            r.periodic_interval_ms == DEFAULT_PERIODIC_INTERVAL_MS,
    {
        WalSyncConfig {
            mode: WalSyncMode::Batch,
            batch_size: DEFAULT_BATCH_SIZE,
            batch_bytes: DEFAULT_BATCH_BYTES,
            periodic_interval_ms: DEFAULT_PERIODIC_INTERVAL_MS,
        }
    }
}

/// Thread budgets for reads, writes and scans.
#[derive(Debug)]
pub struct ParallelismConfig {
    pub max_read_threads: usize,
    pub max_write_threads: usize,
    pub scan_parallelism: usize,
}

impl Default for ParallelismConfig {
    /// 8 readers, 4 writers, scans two-way parallel.
    fn default() -> (r: ParallelismConfig)
        ensures
            r.max_read_threads == DEFAULT_MAX_READ_THREADS,
            r.max_write_threads == DEFAULT_MAX_WRITE_THREADS,
            r.scan_parallelism == DEFAULT_SCAN_PARALLELISM,
    {
        ParallelismConfig {
            max_read_threads: DEFAULT_MAX_READ_THREADS,
            max_write_threads: DEFAULT_MAX_WRITE_THREADS,
            scan_parallelism: DEFAULT_SCAN_PARALLELISM,
        }
    }
}

/// Performance knobs for the whole engine.
#[derive(Debug)]
pub struct PerformanceConfig {
    pub compaction_threads: usize,
    pub wal_sync: WalSyncConfig,
    pub readahead_size: usize,
    pub parallelism: ParallelismConfig,
}

impl Default for PerformanceConfig {
    /// Half the machine's processors for compaction, clamped to 1..=4,
    /// with the stock sync and parallelism settings.
    fn default() -> (r: PerformanceConfig)
        ensures
            1 <= r.compaction_threads <= 4,
            r.wal_sync.mode is Batch,
            r.wal_sync.batch_size == DEFAULT_BATCH_SIZE,
            r.wal_sync.batch_bytes == DEFAULT_BATCH_BYTES,
            r.wal_sync.periodic_interval_ms == DEFAULT_PERIODIC_INTERVAL_MS,
            r.readahead_size == DEFAULT_READAHEAD_SIZE,
            r.parallelism.max_read_threads == DEFAULT_MAX_READ_THREADS,
            r.parallelism.max_write_threads == DEFAULT_MAX_WRITE_THREADS,
            r.parallelism.scan_parallelism == DEFAULT_SCAN_PARALLELISM,
    {
        let cpus = cpu_count();
        let clamped = if cpus < 2 {
            2
        } else if cpus > 8 {
            8
        } else {
            cpus
        };
        PerformanceConfig {
            compaction_threads: clamped / 2,
            wal_sync: WalSyncConfig::default(),
            readahead_size: DEFAULT_READAHEAD_SIZE,
            parallelism: ParallelismConfig::default(),
        }
    }
}

/// The rules one configuration violates given a processor count, in
/// checking order.
pub open spec fn spec_performance_errors(c: PerformanceConfig, cpus: usize) -> Seq<
    PerformanceConfigError,
> {
    (if c.compaction_threads > cpus * 2 {
        seq![PerformanceConfigError::CompactionThreadsTooHigh(c.compaction_threads)]
    } else {
        Seq::empty()
    }) + (if c.readahead_size > 64 * 1024 * 1024 {
        seq![PerformanceConfigError::ReadaheadSizeTooHigh(c.readahead_size)]
    } else {
        Seq::empty()
    }) + (match c.wal_sync.mode {
        WalSyncMode::Batch => (if c.wal_sync.batch_size == 0 {
            seq![PerformanceConfigError::WalBatchSizeZero]
        } else {
            Seq::empty()
        }) + (if c.wal_sync.batch_bytes == 0 {
            seq![PerformanceConfigError::WalBatchBytesZero]
        } else {
            Seq::empty()
        }),
        WalSyncMode::Periodic => if c.wal_sync.periodic_interval_ms == 0 {
            seq![PerformanceConfigError::WalPeriodicIntervalZero]
        } else {
            Seq::empty()
        },
        WalSyncMode::EveryWrite => Seq::empty(),
    }) + (if c.parallelism.scan_parallelism > c.parallelism.max_read_threads {
        seq![
            PerformanceConfigError::ScanParallelismExceedsReadThreads(
                c.parallelism.scan_parallelism,
                c.parallelism.max_read_threads,
            ),
        ]
    } else {
        Seq::empty()
    })
}

/// How one validation outcome relates to the rule list for a given
/// processor count.
pub open spec fn spec_performance_outcome(
    c: PerformanceConfig,
    cpus: usize,
    r: Result<(), PerformanceConfigErrors>,
) -> bool {
    match r {
        Ok(()) => spec_performance_errors(c, cpus).len() == 0,
        Err(e) => e.errors@ == spec_performance_errors(c, cpus) && e.errors@.len() > 0,
    }
}

impl PerformanceConfig {
    /// Checks every rule against an explicit processor count: compaction
    /// threads at most twice the processors, readahead at most 64 MiB,
    /// the active sync mode's knob non-zero, and scan parallelism within
    /// the read-thread budget. Returns success or the full list of
    /// violations.
    pub fn validate_with_cpus(&self, cpus: usize) -> (r: Result<(), PerformanceConfigErrors>)
        requires
            cpus * 2 <= usize::MAX,
        ensures
            spec_performance_outcome(*self, cpus, r),
    {
        let mut err = PerformanceConfigErrors::new();
        if self.compaction_threads > cpus * 2 {
            err.errors.push(
                PerformanceConfigError::CompactionThreadsTooHigh(self.compaction_threads),
            );
        }
        if self.readahead_size > 64 * 1024 * 1024 {
            err.errors.push(PerformanceConfigError::ReadaheadSizeTooHigh(self.readahead_size));
        }
        match self.wal_sync.mode {
            WalSyncMode::Batch => {
                if self.wal_sync.batch_size == 0 {
                    err.errors.push(PerformanceConfigError::WalBatchSizeZero);
                }
                if self.wal_sync.batch_bytes == 0 {
                    err.errors.push(PerformanceConfigError::WalBatchBytesZero);
                }
            },
            WalSyncMode::Periodic => {
                if self.wal_sync.periodic_interval_ms == 0 {
                    err.errors.push(PerformanceConfigError::WalPeriodicIntervalZero);
                }
            },
            WalSyncMode::EveryWrite => {},
        }
        if self.parallelism.scan_parallelism > self.parallelism.max_read_threads {
            err.errors.push(
                PerformanceConfigError::ScanParallelismExceedsReadThreads(
                    self.parallelism.scan_parallelism,
                    self.parallelism.max_read_threads,
                ),
            );
        }
        proof {
            assert(err.errors@ =~= spec_performance_errors(*self, cpus));
        }
        if err.errors.len() == 0 {
            return Ok(());
        }
        Err(err)
    }

    /// Checks every rule against this machine's processor count. The
    /// outcome matches the rule list for whatever count the machine
    /// reported (at least 1).
    pub fn validate(&self) -> (r: Result<(), PerformanceConfigErrors>)
        ensures
            exists|cpus: usize| cpus >= 1 && spec_performance_outcome(*self, cpus, r),
    {
        let cpus = cpu_count();
        let capped = if cpus > usize::MAX / 2 {
            usize::MAX / 2
        } else {
            cpus
        };
        let r = self.validate_with_cpus(capped);
        proof {
            assert(capped >= 1 && spec_performance_outcome(*self, capped, r));
        }
        r
    }
}

} // verus!
