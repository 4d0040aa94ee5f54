//! Block-cache configuration.

use vstd::prelude::*;

use crate::config_errors::{CacheConfigError, CacheConfigErrors};

verus! {

pub const DEFAULT_BLOCK_CACHE_SIZE: u64 = 32 * 1024 * 1024;

/// How the block cache evicts entries.
#[derive(Debug, Clone, Copy)]
enum CacheEvictionPolicy {
    WTinyLFU,
}

/// Sizing and policy of the block cache.
#[derive(Debug)]
pub struct CacheConfig {
    block_cache_size: u64,
    cache_index_blocks: bool,
    cache_bloom_filters: bool,
    cache_eviction_policy: CacheEvictionPolicy,
}

/// The rules one cache configuration violates, in checking order.
pub open spec fn spec_cache_errors(c: CacheConfig) -> Seq<CacheConfigError> {
    if c.spec_block_cache_size() < 1024 * 1024 {
        seq![CacheConfigError::BlockCacheSizeTooSmall(c.spec_block_cache_size())]
    } else {
        Seq::empty()
    }
}

impl Default for CacheConfig {
    /// A 32 MiB cache holding index and bloom-filter blocks.
    fn default() -> (r: CacheConfig)
        ensures
            r.spec_block_cache_size() == DEFAULT_BLOCK_CACHE_SIZE,
    {
        CacheConfig {
            block_cache_size: DEFAULT_BLOCK_CACHE_SIZE,
            cache_index_blocks: true,
            cache_bloom_filters: true,
            cache_eviction_policy: CacheEvictionPolicy::WTinyLFU,
        }
    }
}

impl CacheConfig {
    /// The configured cache size in bytes.
    pub closed spec fn spec_block_cache_size(self) -> u64 {
        self.block_cache_size
    }

    /// Builds a configuration with the given cache size, keeping the
    /// default caching flags and eviction policy.
    pub fn with_block_cache_size(block_cache_size: u64) -> (r: CacheConfig)
        ensures
            r.spec_block_cache_size() == block_cache_size,
    {
        CacheConfig {
            block_cache_size,
            cache_index_blocks: true,
            cache_bloom_filters: true,
            cache_eviction_policy: CacheEvictionPolicy::WTinyLFU,
        }
    }

    /// Checks every rule: the block cache must hold at least 1 MiB.
    /// Returns success or the full list of violations.
    pub fn validate(&self) -> (r: Result<(), CacheConfigErrors>)
        ensures
            match r {
                Ok(()) => spec_cache_errors(*self).len() == 0,
                Err(e) => e.errors@ == spec_cache_errors(*self) && e.errors@.len() > 0,
            },
    {
        let mut err = CacheConfigErrors::new();
        if self.block_cache_size < 1024 * 1024 {
            err.errors.push(CacheConfigError::BlockCacheSizeTooSmall(self.block_cache_size));
        }
        proof {
            assert(err.errors@ =~= spec_cache_errors(*self));
        }
        if err.errors.len() == 0 {
            return Ok(());
        }
        Err(err)
    }
}

} // verus!
