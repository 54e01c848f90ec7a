use storage::cache::flush_due;
use storage::cache::BlockCache;

#[test]
fn test_cache_put_and_get() {
    let mut cache = BlockCache::new(4).unwrap();
    assert_eq!(0, cache.len());
    assert!(cache.put(1, vec![1, 1]).is_none());
    assert!(cache.put(2, vec![2, 2]).is_none());
    assert_eq!(2, cache.len());
    assert_eq!(Some(&vec![1u8, 1u8]), cache.get(1));
    assert_eq!(Some(&vec![2u8, 2u8]), cache.get(2));
    assert!(cache.get(3).is_none());
}

#[test]
fn test_cache_overwrite_keeps_len() {
    let mut cache = BlockCache::new(4).unwrap();
    cache.put(1, vec![1]);
    cache.put(1, vec![9]);
    assert_eq!(1, cache.len());
    assert_eq!(Some(&vec![9u8]), cache.get(1));
}

#[test]
fn test_cache_rejects_zero_capacity() {
    assert!(BlockCache::new(0).is_err());
}

#[test]
fn test_cache_evicts_least_recently_written() {
    let mut cache = BlockCache::new(2).unwrap();
    cache.put(1, vec![1]);
    cache.put(2, vec![2]);
    // the oldest dirty entry leaves and must be persisted
    let evicted = cache.put(3, vec![3]);
    assert_eq!(Some((1, vec![1u8])), evicted);
    assert_eq!(2, cache.len());
    assert!(cache.get(1).is_none());
    assert!(cache.get(2).is_some());
    assert!(cache.get(3).is_some());
}

#[test]
fn test_cache_overwrite_refreshes_recency() {
    let mut cache = BlockCache::new(2).unwrap();
    cache.put(1, vec![1]);
    cache.put(2, vec![2]);
    // rewriting 1 makes 2 the least recently written
    cache.put(1, vec![1, 1]);
    let evicted = cache.put(3, vec![3]);
    assert_eq!(Some((2, vec![2u8])), evicted);
    assert!(cache.get(1).is_some());
    assert!(cache.get(2).is_none());
}

#[test]
fn test_cache_clean_eviction_not_returned() {
    let mut cache = BlockCache::new(2).unwrap();
    cache.put(1, vec![1]);
    cache.put(2, vec![2]);
    // flushing cleans every entry
    let dirty = cache.take_dirty();
    assert_eq!(2, dirty.len());
    assert_eq!((1, vec![1u8]), dirty[0]);
    assert_eq!((2, vec![2u8]), dirty[1]);
    // a clean entry leaves silently: it is already persisted
    assert!(cache.put(3, vec![3]).is_none());
    assert!(cache.get(1).is_none());
}

#[test]
fn test_cache_take_dirty_idempotent() {
    let mut cache = BlockCache::new(4).unwrap();
    cache.put(1, vec![1]);
    assert_eq!(1, cache.take_dirty().len());
    assert_eq!(0, cache.take_dirty().len());
    cache.put(2, vec![2]);
    let dirty = cache.take_dirty();
    assert_eq!(vec![(2, vec![2u8])], dirty);
}

#[test]
fn test_cache_clear() {
    let mut cache = BlockCache::new(4).unwrap();
    cache.put(1, vec![1]);
    cache.clear();
    assert_eq!(0, cache.len());
    assert!(cache.get(1).is_none());
}

#[test]
fn test_flush_due() {
    // nothing dirty: never flush
    assert!(!flush_due(Some(100), 500, false, true));
    // forced flush writes regardless of the interval
    assert!(flush_due(Some(100), 0, true, true));
    assert!(flush_due(None, 0, true, true));
    // without an interval, only forced flushes write
    assert!(!flush_due(None, 1000, true, false));
    // with an interval, the elapsed time decides
    assert!(!flush_due(Some(100), 99, true, false));
    assert!(flush_due(Some(100), 100, true, false));
}
