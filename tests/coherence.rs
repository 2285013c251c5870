use worm_cache::{CacheBlockState, PrivateCacheParameters, TimestampMemoryHierarchy};

const PARAM: PrivateCacheParameters = PrivateCacheParameters {
    l1i_sets: 1,
    l1i_associativity: 4,
    l1d_sets: 1,
    l1d_associativity: 4,
    l2_sets: 1,
    l2_associativity: 4,
    directory_associativity: 4,
};

fn machine() -> TimestampMemoryHierarchy {
    TimestampMemoryHierarchy::new(2, 4, 1, 4, 1).unwrap()
}

fn access(cache: &mut TimestampMemoryHierarchy, ts: &mut usize, core: u8, addr: usize, is_write: bool) {
    *ts += 1;
    cache.access_memory(core, *ts, addr, false, is_write).unwrap();
}

#[test]
fn invalid_to_exclusive() {
    let mut cache = machine();
    let mut ts = 0;
    access(&mut cache, &mut ts, 0, 0, false);
    access(&mut cache, &mut ts, 1, 64, false);

    let mtr = cache.render_mtr(1).unwrap();
    let p0 = mtr.render_private_caches(0, &PARAM);
    let p1 = mtr.render_private_caches(1, &PARAM);

    assert!(p0[1][0][0].state == CacheBlockState::CleanExclusive);
    assert!(p1[1][0][0].state == CacheBlockState::CleanExclusive);
}

#[test]
fn exclusive_to_shared() {
    let mut cache = machine();
    let mut ts = 0;
    access(&mut cache, &mut ts, 0, 0, false);
    access(&mut cache, &mut ts, 1, 0, false);

    let mtr = cache.render_mtr(1).unwrap();
    let p0 = mtr.render_private_caches(0, &PARAM);
    let p1 = mtr.render_private_caches(1, &PARAM);

    assert!(p0[1][0][0].state == CacheBlockState::CleanShared);
    assert!(p1[1][0][0].state == CacheBlockState::CleanShared);
}

#[test]
fn exclusive_to_modified() {
    let mut cache = machine();
    let mut ts = 0;
    access(&mut cache, &mut ts, 0, 0, false);

    let mtr = cache.render_mtr(1).unwrap();
    let p0 = mtr.render_private_caches(0, &PARAM);
    assert!(p0[1][0][0].state == CacheBlockState::CleanExclusive);

    access(&mut cache, &mut ts, 0, 0, true);
    let mtr = cache.render_mtr(1).unwrap();
    let p0 = mtr.render_private_caches(0, &PARAM);
    assert!(p0[1][0][0].state == CacheBlockState::ModifiedExclusive);
}

#[test]
fn exclusive_to_owned() {
    let mut cache = machine();
    let mut ts = 0;
    access(&mut cache, &mut ts, 0, 0, true);
    access(&mut cache, &mut ts, 1, 0, false);

    let mtr = cache.render_mtr(1).unwrap();
    let p0 = mtr.render_private_caches(0, &PARAM);
    let p1 = mtr.render_private_caches(1, &PARAM);

    assert!(p0[1][0][0].state == CacheBlockState::ModifiedOwned);
    assert!(p1[1][0][0].state == CacheBlockState::CleanShared);
}

#[test]
fn shared_to_invalid_and_modified() {
    let mut cache = machine();
    let mut ts = 0;
    access(&mut cache, &mut ts, 0, 0, false);
    access(&mut cache, &mut ts, 1, 0, false);
    access(&mut cache, &mut ts, 0, 0, true);

    let mtr = cache.render_mtr(1).unwrap();
    let p0 = mtr.render_private_caches(0, &PARAM);
    let p1 = mtr.render_private_caches(1, &PARAM);

    assert!(p0[1][0][0].state == CacheBlockState::ModifiedExclusive);
    assert!(p1[1][0][0].state == CacheBlockState::Invalid);
}

#[test]
fn shared_to_owned() {
    let mut cache = machine();
    let mut ts = 0;
    access(&mut cache, &mut ts, 0, 0, false);
    access(&mut cache, &mut ts, 1, 0, false);
    access(&mut cache, &mut ts, 0, 0, true);
    access(&mut cache, &mut ts, 1, 0, false);

    let mtr = cache.render_mtr(1).unwrap();
    let p0 = mtr.render_private_caches(0, &PARAM);
    let p1 = mtr.render_private_caches(1, &PARAM);

    assert!(p0[1][0][0].state == CacheBlockState::ModifiedOwned);
    assert!(p1[1][0][0].state == CacheBlockState::CleanShared);
}
