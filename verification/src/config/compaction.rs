//! Compaction configuration.

use vstd::prelude::*;

use crate::config_errors::{CompactionConfigError, CompactionConfigErrors};

verus! {

pub const DEFAULT_LEVEL_SIZE_MULTIPLIER: u8 = 10;

pub const DEFAULT_MAX_LEVELS: u8 = 7;

pub const DEFAULT_LEVEL_0_FILE_COUNT_COMPACTION_TRIGGER: u8 = 10;

pub const DEFAULT_MAX_BYTES_FOR_LEVEL_BASE: u64 = 512 * 1024 * 1024;

pub const DEFAULT_TARGET_FILE_SIZE_BASE: u64 = 64 * 1024 * 1024;

/// How on-disk tables are merged over time.
#[derive(Debug, Clone, Copy)]
pub enum CompactionStrategy {
    Leveled,
    Tiered,
    Hybrid,
}

/// Shape of the level structure and its compaction triggers.
#[derive(Debug)]
pub struct CompactionConfig {
    compaction_strategy: CompactionStrategy,
    level_size_multiplier: u8,
    max_levels: u8,
    l0_file_count_compaction_trigger: u8,
    max_bytes_for_level_base: u64,
    target_file_size_base: u64,
}

/// The rules one compaction configuration violates, in checking order.
pub open spec fn spec_compaction_errors(c: CompactionConfig) -> Seq<CompactionConfigError> {
    (if c.spec_level_size_multiplier() < 2 {
        seq![CompactionConfigError::LevelSizeMultiplierTooLow(c.spec_level_size_multiplier())]
    } else {
        Seq::empty()
    }) + (if c.spec_max_levels() < 3 {
        seq![CompactionConfigError::MaxLevelTooSmall(c.spec_max_levels())]
    } else {
        Seq::empty()
    }) + (if c.spec_max_levels() > 10 {
        seq![CompactionConfigError::MaxLevelTooBig(c.spec_max_levels())]
    } else {
        Seq::empty()
    }) + (if c.spec_l0_trigger() < 2 {
        seq![CompactionConfigError::L0NotEnoughFiles(c.spec_l0_trigger())]
    } else {
        Seq::empty()
    }) + (if c.spec_target_file_size_base() < 1024 * 1024 {
        seq![CompactionConfigError::TargetFileSizeTooLow(c.spec_target_file_size_base())]
    } else {
        Seq::empty()
    }) + (if c.spec_max_bytes_for_level_base() < c.spec_target_file_size_base() || (
    c.spec_target_file_size_base() > 0 && c.spec_max_bytes_for_level_base() % c.spec_target_file_size_base() != 0) {
        seq![CompactionConfigError::MaxBytesTargetSizeMismatch]
    } else {
        Seq::empty()
    })
}

impl Default for CompactionConfig {
    /// Leveled compaction with the stock sizing.
    fn default() -> (r: CompactionConfig)
        ensures
            r.spec_level_size_multiplier() == DEFAULT_LEVEL_SIZE_MULTIPLIER,
            r.spec_max_levels() == DEFAULT_MAX_LEVELS,
            r.spec_l0_trigger() == DEFAULT_LEVEL_0_FILE_COUNT_COMPACTION_TRIGGER,
            r.spec_max_bytes_for_level_base() == DEFAULT_MAX_BYTES_FOR_LEVEL_BASE,
            r.spec_target_file_size_base() == DEFAULT_TARGET_FILE_SIZE_BASE,
    {
        CompactionConfig {
            compaction_strategy: CompactionStrategy::Leveled,
            level_size_multiplier: DEFAULT_LEVEL_SIZE_MULTIPLIER,
            max_levels: DEFAULT_MAX_LEVELS,
            l0_file_count_compaction_trigger: DEFAULT_LEVEL_0_FILE_COUNT_COMPACTION_TRIGGER,
            max_bytes_for_level_base: DEFAULT_MAX_BYTES_FOR_LEVEL_BASE,
            target_file_size_base: DEFAULT_TARGET_FILE_SIZE_BASE,
        }
    }
}

impl CompactionConfig {
    pub closed spec fn spec_level_size_multiplier(self) -> u8 {
        self.level_size_multiplier
    }

    pub closed spec fn spec_max_levels(self) -> u8 {
        self.max_levels
    }

    pub closed spec fn spec_l0_trigger(self) -> u8 {
        self.l0_file_count_compaction_trigger
    }

    pub closed spec fn spec_max_bytes_for_level_base(self) -> u64 {
        self.max_bytes_for_level_base
    }

    pub closed spec fn spec_target_file_size_base(self) -> u64 {
        self.target_file_size_base
    }

    /// Builds a configuration from every knob.
    pub fn new(
        compaction_strategy: CompactionStrategy,
        level_size_multiplier: u8,
        max_levels: u8,
        l0_file_count_compaction_trigger: u8,
        max_bytes_for_level_base: u64,
        target_file_size_base: u64,
    ) -> (r: CompactionConfig)
        ensures
            r.spec_level_size_multiplier() == level_size_multiplier,
            r.spec_max_levels() == max_levels,
            r.spec_l0_trigger() == l0_file_count_compaction_trigger,
            r.spec_max_bytes_for_level_base() == max_bytes_for_level_base,
            r.spec_target_file_size_base() == target_file_size_base,
    {
        CompactionConfig {
            compaction_strategy,
            level_size_multiplier,
            max_levels,
            l0_file_count_compaction_trigger,
            max_bytes_for_level_base,
            target_file_size_base,
        }
    }

    /// Checks every rule: the level multiplier is at least 2, the level
    /// count lies in 3..=10, level 0 triggers on at least 2 files, the
    /// target file size is at least 1 MiB, and the per-level byte budget
    /// is a multiple of (or at least as large as) the target file size.
    /// Returns success or the full list of violations.
    pub fn validate(&self) -> (r: Result<(), CompactionConfigErrors>)
        ensures
            match r {
                Ok(()) => spec_compaction_errors(*self).len() == 0,
                Err(e) => e.errors@ == spec_compaction_errors(*self) && e.errors@.len() > 0,
            },
    {
        let mut err = CompactionConfigErrors::new();
        if self.level_size_multiplier < 2 {
            err.errors.push(
                CompactionConfigError::LevelSizeMultiplierTooLow(self.level_size_multiplier),
            );
        }
        if self.max_levels < 3 {
            err.errors.push(CompactionConfigError::MaxLevelTooSmall(self.max_levels));
        }
        if self.max_levels > 10 {
            err.errors.push(CompactionConfigError::MaxLevelTooBig(self.max_levels));
        }
        if self.l0_file_count_compaction_trigger < 2 {
            err.errors.push(
                CompactionConfigError::L0NotEnoughFiles(self.l0_file_count_compaction_trigger),
            );
        }
        if self.target_file_size_base < 1024 * 1024 {
            err.errors.push(
                CompactionConfigError::TargetFileSizeTooLow(self.target_file_size_base),
            );
        }
        if self.max_bytes_for_level_base < self.target_file_size_base || (
        self.target_file_size_base > 0 && self.max_bytes_for_level_base
            % self.target_file_size_base != 0) {
            err.errors.push(CompactionConfigError::MaxBytesTargetSizeMismatch);
        }
        proof {
            assert(err.errors@ =~= spec_compaction_errors(*self));
        }
        if err.errors.len() == 0 {
            return Ok(());
        }
        Err(err)
    }
}

} // verus!
