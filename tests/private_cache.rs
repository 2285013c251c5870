use worm_cache::{ConfigError, PrivateCache, SingleCacheResult, TimestampCacheMetaData};

fn meta(ts: usize, is_dirty: bool) -> TimestampCacheMetaData {
    TimestampCacheMetaData { ts, is_dirty }
}

#[test]
fn private_cache_rejects_bad_geometry() {
    assert!(matches!(PrivateCache::new(2, 3), Err(ConfigError::SetCountNotPowerOfTwo)));
    assert!(matches!(PrivateCache::new(0, 2), Err(ConfigError::ZeroAssociativity)));
}

#[test]
fn private_cache_evicts_least_recently_used() {
    let mut c = PrivateCache::new(2, 1).unwrap();
    assert_eq!(c.update(1, meta(1, false)), SingleCacheResult::Miss);
    assert_eq!(c.update(2, meta(2, false)), SingleCacheResult::Miss);
    assert!(c.is_fully_warmed_up());
    assert_eq!(c.update(1, meta(3, false)), SingleCacheResult::Hit);
    assert_eq!(
        c.update(3, meta(4, false)),
        SingleCacheResult::MissAndEvicted(2, meta(2, false))
    );
    assert_eq!(c.occupied(), 2);
    assert_eq!(c.capacity(), 2);
}

#[test]
fn private_cache_keeps_dirty_on_hit() {
    let mut c = PrivateCache::new(1, 1).unwrap();
    c.update(5, meta(1, true));
    assert_eq!(c.update(5, meta(2, false)), SingleCacheResult::Hit);
    assert_eq!(
        c.update(6, meta(3, false)),
        SingleCacheResult::MissAndEvicted(5, meta(2, true))
    );
}

#[test]
fn private_cache_routes_and_invalidates() {
    let mut c = PrivateCache::new(1, 2).unwrap();
    c.update(2, meta(1, false));
    assert_eq!(c.update(3, meta(2, false)), SingleCacheResult::Miss);
    assert!(c.is_fully_warmed_up());
    assert_eq!(c.invalidate(2), Some(meta(1, false)));
    assert_eq!(c.invalidate(2), None);
    assert!(!c.is_fully_warmed_up());
    assert_eq!(c.occupied(), 1);
}
