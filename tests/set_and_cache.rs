use worm_cache::{
    CacheReturnResult, ConfigError, MemoryTimestampRecordCollection, NxViolation,
    TimestampCache, TimestampCacheLineStatus, TimestampCacheSet, TimestampMemoryHierarchy,
    power_of_two,
};

#[test]
fn test_iterator() {
    let mut s = TimestampCacheSet::new(4);
    s.access(1024, 0, false, false);
    s.access(100, 1, false, false);
    s.access(23, 2, false, false);
    s.access(7, 7, false, false);
    s.access(73, 10, false, false);

    for _x in s.iter() {}
}

#[test]
fn iterator_lists_valid_lines_in_way_order() {
    let mut s = TimestampCacheSet::new(4);
    s.access(1024, 0, false, false);
    s.access(100, 1, false, false);
    s.access(23, 2, false, false);
    s.access(7, 7, false, false);
    let r = s.access(73, 10, false, false);
    assert_eq!(r, CacheReturnResult::MissWithEviction(1024, false));
    let ids: Vec<usize> = s.iter().iter().map(|l| l.block_id).collect();
    assert_eq!(ids, vec![73, 100, 23, 7]);
    assert_eq!(s.len(), 4);
    assert_eq!(s.warm_chunk_count(), 4);
}

#[test]
fn non_power_of_two_set_count_is_refused() {
    assert!(matches!(TimestampCache::new(4, 3), Err(ConfigError::SetCountNotPowerOfTwo)));
    assert!(matches!(TimestampCache::new(4, 0), Err(ConfigError::SetCountNotPowerOfTwo)));
    assert!(matches!(TimestampCache::new(0, 4), Err(ConfigError::ZeroAssociativity)));
    assert!(TimestampCache::new(2, 8).is_ok());
    assert!(matches!(
        MemoryTimestampRecordCollection::new(6),
        Err(ConfigError::SetCountNotPowerOfTwo)
    ));
    assert!(TimestampMemoryHierarchy::new(2, 4, 3, 4, 1).is_err());
    assert!(TimestampMemoryHierarchy::new(2, 4, 2, 4, 12).is_err());
}

#[test]
fn power_of_two_values() {
    assert!(!power_of_two(0));
    assert!(power_of_two(1));
    assert!(power_of_two(2));
    assert!(!power_of_two(6));
    assert!(power_of_two(1024));
}

#[test]
fn full_set_evicts_first_inserted_block() {
    let mut s = TimestampCacheSet::new(4);
    let blocks = [11, 22, 33, 44];
    for (i, b) in blocks.iter().enumerate() {
        assert_eq!(s.access(*b, 10 + i, false, false), CacheReturnResult::Miss);
    }
    assert_eq!(s.access(55, 20, false, false), CacheReturnResult::MissWithEviction(11, false));
    assert_eq!(s.access(66, 21, false, false), CacheReturnResult::MissWithEviction(22, false));
}

#[test]
fn dirty_victim_is_written_back() {
    let mut s = TimestampCacheSet::new(2);
    assert_eq!(s.access(1, 1, false, true), CacheReturnResult::Miss);
    assert_eq!(s.access(2, 2, true, false), CacheReturnResult::Miss);
    assert_eq!(s.access(3, 3, false, false), CacheReturnResult::MissWithWriteBack(1));
    assert_eq!(s.access(4, 4, false, false), CacheReturnResult::MissWithEviction(2, true));
}

#[test]
fn hit_refreshes_recency() {
    let mut s = TimestampCacheSet::new(2);
    s.access(1, 1, false, false);
    s.access(2, 2, false, false);
    assert_eq!(s.access(1, 3, false, false), CacheReturnResult::Hit);
    assert_eq!(s.access(3, 4, false, false), CacheReturnResult::MissWithEviction(2, false));
}

#[test]
fn equal_timestamps_evict_lowest_way() {
    let mut s = TimestampCacheSet::new(3);
    s.access(1, 5, false, false);
    s.access(2, 5, false, false);
    s.access(3, 5, false, false);
    assert_eq!(s.access(4, 6, false, false), CacheReturnResult::MissWithEviction(1, false));
}

#[test]
fn invalidated_way_is_reused_without_eviction() {
    let mut s = TimestampCacheSet::new(2);
    s.access(1, 1, false, false);
    s.access(2, 2, false, false);
    let prior = s.invalid(2).unwrap();
    assert_eq!(prior.block_id, 2);
    assert_eq!(prior.status, TimestampCacheLineStatus::CleanData);
    assert_eq!(s.len(), 1);
    assert!(s.invalid(9).is_none());
    assert_eq!(s.access(3, 3, false, false), CacheReturnResult::Miss);
    assert_eq!(s.len(), 2);
}

#[test]
fn status_promotions() {
    let mut s = TimestampCacheSet::new(2);
    s.access(1, 1, true, false);
    assert!(s.peek(1, 2, false, false));
    assert_eq!(s.iter()[0].status, TimestampCacheLineStatus::CleanInstructionAndData);
    s.access(2, 3, false, false);
    s.access(2, 4, false, true);
    assert_eq!(s.iter()[1].status, TimestampCacheLineStatus::DirtyData);
    assert!(!s.peek(7, 5, false, false));
}

#[test]
fn write_then_fetch_violates_nx() {
    let mut s = TimestampCacheSet::new(4);
    assert!(!s.violates_nx(5, false, true));
    s.access(5, 1, false, true);
    assert!(s.violates_nx(5, true, false));
    assert!(!s.violates_nx(5, false, false));

    let mut m = TimestampMemoryHierarchy::new(1, 4, 1, 4, 1).unwrap();
    m.access_memory(0, 1, 64 * 5, false, true).unwrap();
    assert_eq!(m.access_memory(0, 2, 64 * 5, true, false), Err(NxViolation { block_id: 5 }));
}

#[test]
fn cache_routes_by_block_modulo_sets() {
    let mut c = TimestampCache::new(1, 4).unwrap();
    assert_eq!(c.record(1, false, false, 1), CacheReturnResult::Miss);
    assert_eq!(c.record(5, false, false, 2), CacheReturnResult::MissWithEviction(1, false));
    assert_eq!(c.record(2, false, false, 3), CacheReturnResult::Miss);
    assert_eq!(c.warmed_count(), 2);
    assert!(c.peek(2, false, false, 4));
    assert!(!c.peek(6, false, false, 4));
    assert_eq!(c.set(1).iter()[0].block_id, 5);
}

#[test]
fn eviction_goes_to_shadow_cache() {
    let mut m = TimestampMemoryHierarchy::new(1, 1, 1, 4, 1).unwrap();
    m.access_memory(0, 1, 0, false, true).unwrap();
    m.access_memory(0, 2, 64, false, false).unwrap();
    let shadow = m.hierarchies(0).local_shared_cache();
    let lines = shadow.set(0).iter();
    assert_eq!(lines.len(), 1);
    assert_eq!(lines[0].block_id, 0);
    assert_eq!(lines[0].status, TimestampCacheLineStatus::DirtyData);
    assert_eq!(lines[0].ts, 2);
}
