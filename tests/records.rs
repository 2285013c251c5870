use worm_cache::{
    AbsorbError, CacheBlockState, ConfigError, MTRPermission, MemoryTimestampRecord,
    MemoryTimestampRecordCollection, PrivateCacheParameters, TimestampCacheLineStatus,
    TimestampMemoryHierarchy, TsCacheBlock, CacheBlock, select_blocks, select_top_k,
};

fn param(l2_sets: usize, l2_associativity: usize) -> PrivateCacheParameters {
    PrivateCacheParameters {
        l1i_sets: 1,
        l1i_associativity: 2,
        l1d_sets: 1,
        l1d_associativity: 2,
        l2_sets,
        l2_associativity,
        directory_associativity: 4,
    }
}

#[test]
fn directory_excludes_readers_older_than_writer() {
    let rec = MemoryTimestampRecord {
        ts: 12,
        invalid: vec![],
        readers: vec![(1, 5), (2, 12)],
        perm: MTRPermission::DirtyData,
        writer: Some((0, 10)),
    };
    let d = rec.generate_directory_block(77);
    assert_eq!(d.ts, 12);
    assert_eq!(d.d.block_id, 77);
    assert_eq!(d.d.replicas, vec![2]);
    assert_eq!(d.d.last_writer, Some(0));
}

#[test]
fn directory_without_writer_lists_all_readers() {
    let rec = MemoryTimestampRecord {
        ts: 9,
        invalid: vec![],
        readers: vec![(3, 5), (1, 9)],
        perm: MTRPermission::CleanData,
        writer: None,
    };
    let d = rec.generate_directory_block(4);
    assert_eq!(d.d.replicas, vec![3, 1]);
    assert_eq!(d.d.last_writer, None);
}

#[test]
fn export_directory_orders_by_recency() {
    let mut t = MemoryTimestampRecordCollection::new(1).unwrap();
    t.absorb_line(0, 10, 3, TimestampCacheLineStatus::CleanData).unwrap();
    t.absorb_line(0, 11, 7, TimestampCacheLineStatus::CleanData).unwrap();
    t.absorb_line(1, 12, 5, TimestampCacheLineStatus::DirtyData).unwrap();
    let dir = t.export_directory();
    let ids: Vec<usize> = dir[0].iter().map(|d| d.block_id).collect();
    assert_eq!(ids, vec![11, 12, 10]);
    assert_eq!(dir[0][1].last_writer, Some(1));
}

#[test]
fn prune_keeps_most_recent_records() {
    let mut t = MemoryTimestampRecordCollection::new(1).unwrap();
    let stamps = [(100, 4), (101, 9), (102, 1), (103, 7), (104, 3)];
    for (b, ts) in stamps {
        t.absorb_line(0, b, ts, TimestampCacheLineStatus::CleanData).unwrap();
    }
    let t = t.prune_by_associativity(2);
    assert!(t.look_up(101));
    assert!(t.look_up(103));
    assert!(!t.look_up(100));
    assert!(!t.look_up(102));
    assert!(!t.look_up(104));
    assert_eq!(t.bucket(0).len(), 2);
}

#[test]
fn prune_leaves_small_buckets_alone() {
    let mut t = MemoryTimestampRecordCollection::new(2).unwrap();
    t.absorb_line(0, 2, 1, TimestampCacheLineStatus::CleanData).unwrap();
    t.absorb_line(0, 4, 2, TimestampCacheLineStatus::CleanData).unwrap();
    let t = t.prune_by_associativity(2);
    assert_eq!(t.bucket(0)[0].0, 2);
    assert_eq!(t.bucket(0)[1].0, 4);
}

#[test]
fn double_absorption_is_refused() {
    let mut m = TimestampMemoryHierarchy::new(1, 4, 1, 4, 1).unwrap();
    m.access_memory(0, 1, 0, false, false).unwrap();
    let mut t = MemoryTimestampRecordCollection::new(1).unwrap();
    let cache = m.hierarchies(0).private_cache();
    assert_eq!(t.absorb_ts_cache(0, cache), Ok(()));
    assert_eq!(t.absorb_ts_cache(0, cache), Err(AbsorbError::DuplicateCore));
}

#[test]
fn fetch_against_other_writer_violates_nx() {
    let mut t = MemoryTimestampRecordCollection::new(1).unwrap();
    t.absorb_line(0, 8, 1, TimestampCacheLineStatus::DirtyData).unwrap();
    assert_eq!(
        t.absorb_line(1, 8, 2, TimestampCacheLineStatus::Instruction),
        Err(AbsorbError::NxViolation)
    );
    t.absorb_line(1, 9, 1, TimestampCacheLineStatus::Instruction).unwrap();
    assert_eq!(
        t.absorb_line(0, 9, 2, TimestampCacheLineStatus::DirtyData),
        Err(AbsorbError::NxViolation)
    );
}

#[test]
fn equal_timestamp_writers_keep_later_one() {
    let mut t = MemoryTimestampRecordCollection::new(1).unwrap();
    t.absorb_line(0, 8, 4, TimestampCacheLineStatus::DirtyData).unwrap();
    t.absorb_line(1, 8, 4, TimestampCacheLineStatus::DirtyData).unwrap();
    assert_eq!(t.bucket(0)[0].1.writer, Some((1, 4)));
    t.absorb_line(2, 8, 3, TimestampCacheLineStatus::DirtyData).unwrap();
    assert_eq!(t.bucket(0)[0].1.writer, Some((1, 4)));
}

#[test]
fn invalidation_history_renders_invalid() {
    let mut t = MemoryTimestampRecordCollection::new(1).unwrap();
    t.absorb_line(0, 3, 2, TimestampCacheLineStatus::CleanData).unwrap();
    t.absorb_line(1, 3, 1, TimestampCacheLineStatus::Invalid).unwrap();
    assert_eq!(
        t.absorb_line(1, 3, 5, TimestampCacheLineStatus::Invalid),
        Err(AbsorbError::DuplicateCore)
    );
    let p1 = t.render_private_caches(1, &param(1, 4));
    assert_eq!(p1[2][0][0].state, CacheBlockState::Invalid);
    let p0 = t.render_private_caches(0, &param(1, 4));
    assert_eq!(p0[2][0][0].state, CacheBlockState::CleanExclusive);
}

#[test]
fn l2_keeps_most_recent_and_l1_is_drawn_from_it() {
    let mut t = MemoryTimestampRecordCollection::new(2).unwrap();
    t.absorb_line(0, 0, 1, TimestampCacheLineStatus::CleanData).unwrap();
    t.absorb_line(0, 1, 4, TimestampCacheLineStatus::Instruction).unwrap();
    t.absorb_line(0, 2, 3, TimestampCacheLineStatus::CleanData).unwrap();
    t.absorb_line(0, 3, 2, TimestampCacheLineStatus::CleanData).unwrap();
    let p = t.render_private_caches(0, &param(1, 3));
    let l2: Vec<usize> = p[2][0].iter().map(|b| b.block_id).collect();
    assert_eq!(l2, vec![1, 2, 3]);
    let l1i: Vec<usize> = p[0][0].iter().map(|b| b.block_id).collect();
    assert_eq!(l1i, vec![1]);
    let l1d: Vec<usize> = p[1][0].iter().map(|b| b.block_id).collect();
    assert_eq!(l1d, vec![2, 3]);
    assert!(p[0][0][0].in_instruction_cache);
    assert!(!p[0][0][0].in_data_cache);
}

#[test]
fn l2_sets_group_buckets() {
    let mut t = MemoryTimestampRecordCollection::new(4).unwrap();
    for b in 0..8usize {
        t.absorb_line(0, b, 10 + b, TimestampCacheLineStatus::CleanData).unwrap();
    }
    let p = t.render_private_caches(0, &param(2, 2));
    let even: Vec<usize> = p[2][0].iter().map(|b| b.block_id).collect();
    let odd: Vec<usize> = p[2][1].iter().map(|b| b.block_id).collect();
    assert_eq!(even, vec![6, 4]);
    assert_eq!(odd, vec![7, 5]);
}

#[test]
fn top_k_selection_is_stable_and_bounded() {
    let keys = vec![(5, 0), (9, 1), (5, 2), (7, 3)];
    assert_eq!(select_top_k(&keys, 3), vec![(9, 1), (7, 3), (5, 0)]);
    assert_eq!(select_top_k(&keys, 10), vec![(9, 1), (7, 3), (5, 0), (5, 2)]);
    assert_eq!(select_top_k(&keys, 0), vec![]);
    let block = |id: usize, ts: usize| TsCacheBlock {
        d: CacheBlock {
            block_id: id,
            state: CacheBlockState::CleanShared,
            in_instruction_cache: false,
            in_data_cache: true,
        },
        ts,
    };
    let chosen = select_blocks(&vec![block(1, 2), block(2, 8), block(3, 5)], 2);
    assert_eq!(chosen, vec![block(2, 8), block(3, 5)]);
}

#[test]
fn shared_cache_skips_tracked_blocks_and_merges_dirty() {
    let mut m = TimestampMemoryHierarchy::new(2, 1, 1, 4, 1).unwrap();
    // core 0: block 0 written, then evicted by block 1
    m.access_memory(0, 1, 0, false, true).unwrap();
    m.access_memory(0, 2, 64, false, false).unwrap();
    // core 1: block 0 read, then evicted by block 2
    m.access_memory(1, 3, 0, false, false).unwrap();
    m.access_memory(1, 4, 128, false, false).unwrap();
    let mtr = m.render_mtr(1).unwrap();
    let llc = m.render_llc(&mtr);
    assert_eq!(llc.len(), 1);
    assert_eq!(llc[0].len(), 1);
    assert_eq!(llc[0][0].block_id, 0);
    assert_eq!(llc[0][0].state, CacheBlockState::ModifiedExclusive);

    let cp = m.render_cache_hierarchy(&mtr, &param(1, 4));
    assert_eq!(cp.l2.len(), 2);
    assert_eq!(cp.l2[0][0][0].block_id, 1);
    assert_eq!(cp.l2[1][0][0].block_id, 2);
    assert_eq!(cp.directory[0].len(), 2);
    assert_eq!(cp.shared_cache, llc);
}

#[test]
fn parameters_are_validated() {
    assert_eq!(param(1, 4).validate(1), Ok(()));
    assert_eq!(param(2, 4).validate(1), Err(ConfigError::IndivisibleSetCount));
    assert_eq!(param(3, 4).validate(6), Err(ConfigError::SetCountNotPowerOfTwo));
    assert_eq!(param(1, 0).validate(1), Err(ConfigError::ZeroAssociativity));
    let mut p = param(4, 4);
    p.l1d_sets = 8;
    assert_eq!(p.validate(16), Err(ConfigError::IndivisibleSetCount));
}
