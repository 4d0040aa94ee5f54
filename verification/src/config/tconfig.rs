//! Top-level storage-engine configuration.

use vstd::prelude::*;

use crate::config_errors::{TaurusConfigError, TaurusConfigErrors};

verus! {

pub const DEFAULT_BLOCK_SIZE: u64 = 32 * 1024;

pub const DEFAULT_MEMTABLE_SIZE: u64 = 64 * 1024 * 1024;

pub const DEFAULT_BLOOM_BITS_PER_KEY: u8 = 10;

/// The compression codec applied to table blocks.
#[derive(Debug, Clone, Copy)]
pub enum CompressionType {
    Uncompressed,
    LZ4,
    Snappy,
    Zstd,
}

/// Block size, memtable size, compression and bloom-filter sizing.
#[derive(Debug)]
pub struct TaurusConfig {
    block_size: u64,
    mem_table_size: u64,
    compression_algo: CompressionType,
    bloom_bits_per_key: u8,
}

/// The rules one configuration violates, in checking order.
pub open spec fn spec_taurus_errors(c: TaurusConfig) -> Seq<TaurusConfigError> {
    (if c.spec_block_size() == 0 || (c.spec_block_size() & (c.spec_block_size() - 1) as u64)
        != 0 {
        seq![TaurusConfigError::BlockSizeNotPowerOfTwo(c.spec_block_size())]
    } else {
        Seq::empty()
    }) + (if c.spec_block_size() < 4 * 1024 {
        seq![TaurusConfigError::BlockSizeTooSmall(c.spec_block_size())]
    } else {
        Seq::empty()
    }) + (if c.spec_block_size() > 128 * 1024 {
        seq![TaurusConfigError::BlockSizeTooLarge(c.spec_block_size())]
    } else {
        Seq::empty()
    }) + (if c.spec_mem_table_size() < 1024 * 1024 {
        seq![TaurusConfigError::MemtableSizeTooSmall(c.spec_mem_table_size())]
    } else {
        Seq::empty()
    }) + (if c.spec_mem_table_size() > 1024 * 1024 * 1024 {
        seq![TaurusConfigError::MemtableSizeTooLarge(c.spec_mem_table_size())]
    } else {
        Seq::empty()
    }) + (if c.spec_mem_table_size() <= c.spec_block_size() {
        seq![
            TaurusConfigError::MemtableSmallerThanBlock(
                c.spec_mem_table_size(),
                c.spec_block_size(),
            ),
        ]
    } else {
        Seq::empty()
    }) + (if c.spec_bloom_bits_per_key() < 4 {
        seq![TaurusConfigError::BloomBitsPerKeyTooLow(c.spec_bloom_bits_per_key())]
    } else {
        Seq::empty()
    }) + (if c.spec_bloom_bits_per_key() > 20 {
        seq![TaurusConfigError::BloomBitsPerKeyTooHigh(c.spec_bloom_bits_per_key())]
    } else {
        Seq::empty()
    })
}

impl Default for TaurusConfig {
    /// 32 KiB blocks, a 64 MiB memtable, LZ4 compression and 10 bloom
    /// bits per key.
    fn default() -> (r: TaurusConfig)
        ensures
            r.spec_block_size() == DEFAULT_BLOCK_SIZE,
            r.spec_mem_table_size() == DEFAULT_MEMTABLE_SIZE,
            r.spec_bloom_bits_per_key() == DEFAULT_BLOOM_BITS_PER_KEY,
    {
        TaurusConfig {
            block_size: DEFAULT_BLOCK_SIZE,
            mem_table_size: DEFAULT_MEMTABLE_SIZE,
            compression_algo: CompressionType::LZ4,
            bloom_bits_per_key: DEFAULT_BLOOM_BITS_PER_KEY,
        }
    }
}

impl TaurusConfig {
    pub closed spec fn spec_block_size(self) -> u64 {
        self.block_size
    }

    pub closed spec fn spec_mem_table_size(self) -> u64 {
        self.mem_table_size
    }

    pub closed spec fn spec_bloom_bits_per_key(self) -> u8 {
        self.bloom_bits_per_key
    }

    /// Builds a configuration from every knob.
    pub fn new(
        block_size: u64,
        mem_table_size: u64,
        compression_algo: CompressionType,
        bloom_bits_per_key: u8,
    ) -> (r: TaurusConfig)
        ensures
            r.spec_block_size() == block_size,
            r.spec_mem_table_size() == mem_table_size,
            r.spec_bloom_bits_per_key() == bloom_bits_per_key,
    {
        TaurusConfig { block_size, mem_table_size, compression_algo, bloom_bits_per_key }
    }

    /// Checks every rule: the block size is a power of two between 4 KiB
    /// and 128 KiB, the memtable size lies between 1 MiB and 1 GiB and
    /// strictly exceeds the block size, and the bloom filter spends 4 to
    /// 20 bits per key. Returns success or the full list of violations.
    #[verifier::rlimit(100)]
    pub fn validate(&self) -> (r: Result<(), TaurusConfigErrors>)
        ensures
            match r {
                Ok(()) => spec_taurus_errors(*self).len() == 0,
                Err(e) => e.errors@ == spec_taurus_errors(*self) && e.errors@.len() > 0,
            },
    {
        let mut err = TaurusConfigErrors::new();
        if self.block_size == 0 || (self.block_size & (self.block_size - 1)) != 0 {
            err.errors.push(TaurusConfigError::BlockSizeNotPowerOfTwo(self.block_size));
        }
        if self.block_size < 4 * 1024 {
            err.errors.push(TaurusConfigError::BlockSizeTooSmall(self.block_size));
        }
        if self.block_size > 128 * 1024 {
            err.errors.push(TaurusConfigError::BlockSizeTooLarge(self.block_size));
        }
        if self.mem_table_size < 1024 * 1024 {
            err.errors.push(TaurusConfigError::MemtableSizeTooSmall(self.mem_table_size));
        }
        if self.mem_table_size > 1024 * 1024 * 1024 {
            err.errors.push(TaurusConfigError::MemtableSizeTooLarge(self.mem_table_size));
        }
        if self.mem_table_size <= self.block_size {
            err.errors.push(
                TaurusConfigError::MemtableSmallerThanBlock(self.mem_table_size, self.block_size),
            );
        }
        if self.bloom_bits_per_key < 4 {
            err.errors.push(TaurusConfigError::BloomBitsPerKeyTooLow(self.bloom_bits_per_key));
        }
        if self.bloom_bits_per_key > 20 {
            err.errors.push(TaurusConfigError::BloomBitsPerKeyTooHigh(self.bloom_bits_per_key));
        }
        proof {
            assert(err.errors@ =~= spec_taurus_errors(*self));
        }
        if err.errors.len() == 0 {
            return Ok(());
        }
        Err(err)
    }
}

} // verus!
