//! The exported checkpoint: rendered cache lines, directory entries and parameters.

use vstd::prelude::*;
use crate::config::{ConfigError, is_pow2, power_of_two};

verus! {

/// Geometry of the private levels to reconstruct.
#[derive(Clone, Copy, PartialEq, Eq, Structural, Debug)]
pub struct PrivateCacheParameters {
    pub l1i_sets: usize,
    pub l1i_associativity: usize,
    pub l1d_sets: usize,
    pub l1d_associativity: usize,
    pub l2_sets: usize,
    pub l2_associativity: usize,
    pub directory_associativity: usize,
}

impl PrivateCacheParameters {
    /// Set counts are powers of two, associativities nonzero, and each level's set count
    /// divides the count of the level it is derived from (`buckets` for the L2).
    pub open spec fn valid_for(self, buckets: nat) -> bool {
        &&& is_pow2(self.l1i_sets as nat)
        &&& is_pow2(self.l1d_sets as nat)
        &&& is_pow2(self.l2_sets as nat)
        &&& self.l1i_associativity > 0
        &&& self.l1d_associativity > 0
        &&& self.l2_associativity > 0
        &&& self.directory_associativity > 0
        &&& buckets % (self.l2_sets as nat) == 0
        &&& self.l2_sets % self.l1i_sets == 0
        &&& self.l2_sets % self.l1d_sets == 0
    }

    /// The first rule that the parameters break for a table of `buckets` buckets, if any.
    pub open spec fn first_error(self, buckets: nat) -> Option<ConfigError> {
        if !(is_pow2(self.l1i_sets as nat) && is_pow2(self.l1d_sets as nat) && is_pow2(
            self.l2_sets as nat,
        )) {
            Some(ConfigError::SetCountNotPowerOfTwo)
        } else if self.l1i_associativity == 0 || self.l1d_associativity == 0
            || self.l2_associativity == 0 || self.directory_associativity == 0 {
            Some(ConfigError::ZeroAssociativity)
        } else if !(buckets % (self.l2_sets as nat) == 0 && self.l2_sets % self.l1i_sets == 0
            && self.l2_sets % self.l1d_sets == 0) {
            Some(ConfigError::IndivisibleSetCount)
        } else {
            None
        }
    }

    /// Checks the parameters against a record table of `buckets` buckets.
    pub fn validate(&self, buckets: usize) -> (r: Result<(), ConfigError>)
        ensures
            r is Ok <==> self.valid_for(buckets as nat),
            match self.first_error(buckets as nat) {
                Some(e) => r == Err::<(), ConfigError>(e),
                None => r is Ok,
            },
    {
        if !power_of_two(self.l1i_sets) || !power_of_two(self.l1d_sets) || !power_of_two(
            self.l2_sets,
        ) {
            return Err(ConfigError::SetCountNotPowerOfTwo);
        }
        if self.l1i_associativity == 0 || self.l1d_associativity == 0 || self.l2_associativity == 0
            || self.directory_associativity == 0 {
            return Err(ConfigError::ZeroAssociativity);
        }
        if buckets % self.l2_sets != 0 || self.l2_sets % self.l1i_sets != 0 || self.l2_sets
            % self.l1d_sets != 0 {
            return Err(ConfigError::IndivisibleSetCount);
        }
        Ok(())
    }
}

/// The five coherence states of a rendered line.
#[derive(Clone, Copy, PartialEq, Eq, Structural, Debug)]
pub enum CacheBlockState {
    Invalid,
    CleanShared,
    CleanExclusive,
    ModifiedExclusive,
    ModifiedOwned,
}

/// A rendered cache line.
#[derive(Clone, Copy, PartialEq, Eq, Structural, Debug)]
pub struct CacheBlock {
    pub block_id: usize,
    pub state: CacheBlockState,
    pub in_instruction_cache: bool,
    pub in_data_cache: bool,
}

/// A directory entry: the cores holding a valid replica, and the last writer.
#[derive(Clone, PartialEq, Eq, Debug)]
pub struct DirectoryBlock {
    pub block_id: usize,
    pub replicas: Vec<u8>,
    pub last_writer: Option<u8>,
}

/// Lines of one cache level, set by set.
pub type SerializedCache = Vec<Vec<CacheBlock>>;

/// Directory entries, bucket by bucket.
pub type SerializedDirectory = Vec<Vec<DirectoryBlock>>;

/// A reconstructed memory hierarchy; the private levels are indexed by core id.
#[derive(Debug)]
pub struct MemoryHierarchyCheckPoint {
    pub l1i: Vec<SerializedCache>,
    pub l1d: Vec<SerializedCache>,
    pub l2: Vec<SerializedCache>,
    pub directory: SerializedDirectory,
    pub shared_cache: SerializedCache,
}

/// Something that carries a recency timestamp and exports a plain value.
pub trait TimestampedBlock: Sized {
    type ExportedType;

    spec fn spec_ts(&self) -> usize;

    spec fn spec_export(&self) -> Self::ExportedType;

    fn ts(&self) -> (r: usize)
        ensures
            r == self.spec_ts(),
    ;

    fn export(self) -> (r: Self::ExportedType)
        ensures
            r == self.spec_export(),
    ;
}

/// A rendered cache line with its recency.
#[derive(Clone, Copy, PartialEq, Eq, Structural, Debug)]
pub struct TsCacheBlock {
    pub d: CacheBlock,
    pub ts: usize,
}

impl TimestampedBlock for TsCacheBlock {
    type ExportedType = CacheBlock;

    open spec fn spec_ts(&self) -> usize {
        self.ts
    }

    open spec fn spec_export(&self) -> CacheBlock {
        self.d
    }

    fn ts(&self) -> (r: usize) {
        self.ts
    }

    fn export(self) -> (r: CacheBlock) {
        self.d
    }
}

/// A directory entry with the recency of its record.
#[derive(Clone, PartialEq, Eq, Debug)]
pub struct TsDirectoryBlock {
    pub d: DirectoryBlock,
    pub ts: usize,
}

impl TimestampedBlock for TsDirectoryBlock {
    type ExportedType = DirectoryBlock;

    open spec fn spec_ts(&self) -> usize {
        self.ts
    }

    open spec fn spec_export(&self) -> DirectoryBlock {
        self.d
    }

    fn ts(&self) -> (r: usize) {
        self.ts
    }

    fn export(self) -> (r: DirectoryBlock) {
        self.d
    }
}

} // verus!
