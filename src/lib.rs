//! Reconstruction of multi-core cache-coherence state from per-core,
//! timestamp-ordered associative caches.

mod checkpoint;
mod config;
mod marker;
mod mtr;
mod pbb_metadata;
mod per_core_record;
mod render;
mod single;
mod topk;
mod trace;
mod ts_cache;
mod ts_model;
mod ts_set;
mod util;
mod vtime;

pub use checkpoint::{
    CacheBlock, CacheBlockState, DirectoryBlock, MemoryHierarchyCheckPoint, PrivateCacheParameters,
    SerializedCache, SerializedDirectory, TimestampedBlock, TsCacheBlock, TsDirectoryBlock,
};
pub use config::{ConfigError, power_of_two};
pub use marker::{HINT_MASK, HINT_OPCODE, MARKER_HINT_MIN, marker_hint};
pub use mtr::{
    AbsorbError, CoreId, MTRPermission, MemoryTimestampRecord, MemoryTimestampRecordCollection,
};
pub use pbb_metadata::{PA_MASK, PBBMetadata};
pub use per_core_record::{CACHE_LINE_SIZE, NxViolation, TimestampSingleCoreMemoryHierarchy};
pub use render::{render_l1_sets, select_blocks};
pub use single::{
    BLOCK_SIZE, BLOCK_SIZE_LOG2, CacheMetaData, PrivateCache, SingleCacheResult,
};
pub use topk::{insert_bounded, select_top_k};
pub use trace::TraceEntry;
pub use ts_cache::{TimestampCache, TimestampCacheMetaData};
pub use ts_model::TimestampMemoryHierarchy;
pub use ts_set::{
    CacheReturnResult, SetAccessResult, SetLine, TimestampCacheLineStatus, TimestampCacheSet,
};
pub use util::find_fetch_block_from_block_id_sequence;
pub use vtime::{ICountPlugin, VirtualTimeContext};
