use storage::slot::Slot;
use storage::store::Block;
use storage::store::BlockStore;
use storage::store::StorageConfig;
use storage::store::StorageError;

fn config(max_stored_blocks: usize) -> StorageConfig {
    StorageConfig {
        max_stored_blocks,
        thread_count: 2,
        cache_capacity: 256,
        flush_interval_ms: None,
    }
}

fn hash_of(period: u64, thread: u8) -> u64 {
    period * 10 + thread as u64
}

fn block_at(period: u64, thread: u8) -> Block {
    Block { slot: Slot::new(period, thread), data: vec![period as u8, thread] }
}

fn add_block(store: &mut BlockStore, period: u64, thread: u8) {
    store.add_block(hash_of(period, thread), block_at(period, thread));
}

fn contains_hash(found: &Vec<(u64, Block)>, h: u64) -> bool {
    found.iter().any(|p| p.0 == h)
}

#[test]
fn test_max_block_count() {
    let mut storage = BlockStore::new(&config(5)).unwrap();
    storage.clear();
    assert_eq!(0, storage.len());
    // write 6 blocks; 5 must remain, with (1,0) removed.
    add_block(&mut storage, 2, 1);
    assert_eq!(1, storage.len());
    add_block(&mut storage, 1, 1);
    assert_eq!(2, storage.len());
    add_block(&mut storage, 3, 0);
    assert_eq!(3, storage.len());
    add_block(&mut storage, 1, 0);
    assert_eq!(4, storage.len());
    add_block(&mut storage, 3, 1);
    assert_eq!(5, storage.len());
    add_block(&mut storage, 4, 0);
    assert_eq!(5, storage.len());
    let result = storage.get_slot_range(Some(Slot::new(0, 0)), Some(Slot::new(1, 1)));
    assert_eq!(0, result.len());
    add_block(&mut storage, 4, 1);
    assert_eq!(5, storage.len());
    let result = storage.get_slot_range(Some(Slot::new(0, 0)), Some(Slot::new(2, 1)));
    assert_eq!(0, result.len());
}

#[test]
fn test_max_nb_blocks() {
    let mut storage = BlockStore::new(&config(5)).unwrap();
    storage.clear();
    assert_eq!(0, storage.len());
    add_block(&mut storage, 2, 1);
    assert_eq!(1, storage.len());
    add_block(&mut storage, 1, 1);
    assert_eq!(2, storage.len());
    add_block(&mut storage, 3, 0);
    assert_eq!(3, storage.len());
    add_block(&mut storage, 1, 0);
    assert_eq!(4, storage.len());
    add_block(&mut storage, 3, 1);
    assert_eq!(5, storage.len());
    add_block(&mut storage, 4, 0);
    assert_eq!(5, storage.len());
    let result = storage.get_slot_range(Some(Slot::new(0, 0)), Some(Slot::new(1, 1)));
    assert_eq!(0, result.len());
    add_block(&mut storage, 4, 1);
    let result = storage.get_slot_range(Some(Slot::new(0, 0)), Some(Slot::new(2, 1)));
    assert_eq!(0, result.len());
}

#[test]
fn test_get_slot_range() {
    let mut storage = BlockStore::new(&config(10)).unwrap();
    assert_eq!(0, storage.len());
    add_block(&mut storage, 2, 1);
    add_block(&mut storage, 1, 0);
    add_block(&mut storage, 1, 1);
    add_block(&mut storage, 3, 0);
    add_block(&mut storage, 3, 1);
    add_block(&mut storage, 4, 0);
    assert_eq!(6, storage.len());

    let result = storage.get_slot_range(Some(Slot::new(1, 1)), Some(Slot::new(3, 1)));
    assert!(contains_hash(&result, hash_of(1, 1)));
    assert!(contains_hash(&result, hash_of(2, 1)));
    assert!(contains_hash(&result, hash_of(3, 0)));
    assert!(!contains_hash(&result, hash_of(3, 1)));
    assert!(!contains_hash(&result, hash_of(1, 0)));
    assert!(!contains_hash(&result, hash_of(2, 0)));

    // range entirely before the stored slots
    let result = storage.get_slot_range(Some(Slot::new(0, 0)), Some(Slot::new(1, 0)));
    assert_eq!(0, result.len());
    // range entirely after the stored slots
    let result = storage.get_slot_range(Some(Slot::new(4, 1)), Some(Slot::new(6, 1)));
    assert_eq!(0, result.len());
    // empty interval
    let result = storage.get_slot_range(Some(Slot::new(1, 1)), Some(Slot::new(1, 1)));
    assert_eq!(0, result.len());
    // reversed bounds
    let result = storage.get_slot_range(Some(Slot::new(3, 1)), Some(Slot::new(1, 1)));
    assert_eq!(0, result.len());

    let result = storage.get_slot_range(Some(Slot::new(0, 0)), Some(Slot::new(1, 1)));
    assert!(contains_hash(&result, hash_of(1, 0)));
    let result = storage.get_slot_range(Some(Slot::new(4, 0)), Some(Slot::new(5, 1)));
    assert!(contains_hash(&result, hash_of(4, 0)));
}

#[test]
fn test_unbounded_ranges() {
    let mut storage = BlockStore::new(&config(10)).unwrap();
    add_block(&mut storage, 1, 0);
    add_block(&mut storage, 2, 0);
    add_block(&mut storage, 3, 0);
    let all = storage.get_slot_range(None, None);
    assert_eq!(3, all.len());
    let from_two = storage.get_slot_range(Some(Slot::new(2, 0)), None);
    assert_eq!(2, from_two.len());
    assert!(!contains_hash(&from_two, hash_of(1, 0)));
    let before_three = storage.get_slot_range(None, Some(Slot::new(3, 0)));
    assert_eq!(2, before_three.len());
    assert!(!contains_hash(&before_three, hash_of(3, 0)));
}

#[test]
fn test_capacity_invariant_every_insert() {
    let mut storage = BlockStore::new(&config(3)).unwrap();
    for period in 0..20u64 {
        add_block(&mut storage, period, (period % 2) as u8);
        assert!(storage.len() <= 3);
    }
}

#[test]
fn test_eviction_removes_oldest_slots() {
    let mut storage = BlockStore::new(&config(2)).unwrap();
    add_block(&mut storage, 5, 0);
    add_block(&mut storage, 6, 0);
    // a block older than everything stored is evicted right away
    let evicted = storage.add_block(hash_of(1, 0), block_at(1, 0));
    assert_eq!(vec![hash_of(1, 0)], evicted);
    assert_eq!(2, storage.len());
    let all = storage.get_slot_range(None, None);
    assert!(contains_hash(&all, hash_of(5, 0)));
    assert!(contains_hash(&all, hash_of(6, 0)));
    // a newer block pushes out the oldest stored slot
    let evicted = storage.add_block(hash_of(7, 0), block_at(7, 0));
    assert_eq!(vec![hash_of(5, 0)], evicted);
    let all = storage.get_slot_range(None, None);
    assert!(contains_hash(&all, hash_of(6, 0)));
    assert!(contains_hash(&all, hash_of(7, 0)));
}

#[test]
fn test_eviction_drops_whole_bucket() {
    // two different hashes in the same slot leave together
    let mut storage = BlockStore::new(&config(2)).unwrap();
    storage.add_block(100, Block { slot: Slot::new(1, 0), data: vec![1] });
    storage.add_block(200, Block { slot: Slot::new(1, 0), data: vec![2] });
    let evicted = storage.add_block(300, Block { slot: Slot::new(2, 0), data: vec![3] });
    let mut evicted = evicted;
    evicted.sort();
    assert_eq!(vec![100, 200], evicted);
    assert_eq!(1, storage.len());
}

#[test]
fn test_overwrite_same_hash_same_slot() {
    let mut storage = BlockStore::new(&config(5)).unwrap();
    storage.add_block(42, Block { slot: Slot::new(2, 0), data: vec![1, 1] });
    assert_eq!(1, storage.len());
    storage.add_block(42, Block { slot: Slot::new(2, 0), data: vec![2, 2] });
    assert_eq!(1, storage.len());
    let all = storage.get_slot_range(None, None);
    assert_eq!(1, all.len());
    assert_eq!(42, all[0].0);
    assert_eq!(vec![2u8, 2u8], all[0].1.data);
}

#[test]
fn test_overwrite_moves_slot() {
    let mut storage = BlockStore::new(&config(5)).unwrap();
    storage.add_block(42, Block { slot: Slot::new(2, 0), data: vec![1] });
    storage.add_block(7, Block { slot: Slot::new(3, 0), data: vec![3] });
    storage.add_block(42, Block { slot: Slot::new(4, 0), data: vec![2] });
    assert_eq!(2, storage.len());
    let old_range = storage.get_slot_range(Some(Slot::new(2, 0)), Some(Slot::new(2, 1)));
    assert_eq!(0, old_range.len());
    let new_range = storage.get_slot_range(Some(Slot::new(4, 0)), None);
    assert!(contains_hash(&new_range, 42));
}

#[test]
fn test_clear_resets_state() {
    let mut storage = BlockStore::new(&config(5)).unwrap();
    add_block(&mut storage, 1, 0);
    add_block(&mut storage, 2, 1);
    assert_eq!(2, storage.len());
    storage.clear();
    assert_eq!(0, storage.len());
    let all = storage.get_slot_range(None, None);
    assert_eq!(0, all.len());
    let some = storage.get_slot_range(Some(Slot::new(0, 0)), Some(Slot::new(9, 1)));
    assert_eq!(0, some.len());
}

#[test]
fn test_invalid_config_rejected() {
    let bad = StorageConfig {
        max_stored_blocks: 0,
        thread_count: 2,
        cache_capacity: 256,
        flush_interval_ms: None,
    };
    assert_eq!(Err(StorageError::ConfigurationError), BlockStore::new(&bad).map(|_| ()));
    let no_threads = StorageConfig {
        max_stored_blocks: 5,
        thread_count: 0,
        cache_capacity: 256,
        flush_interval_ms: None,
    };
    assert_eq!(
        Err(StorageError::ConfigurationError),
        BlockStore::new(&no_threads).map(|_| ())
    );
}

#[test]
fn test_load_rebuilds_catalog() {
    let recovered = vec![
        (hash_of(2, 1), block_at(2, 1)),
        (hash_of(1, 0), block_at(1, 0)),
        (hash_of(3, 0), block_at(3, 0)),
    ];
    let (storage, evicted) = BlockStore::load(&config(5), recovered).unwrap();
    assert_eq!(0, evicted.len());
    assert_eq!(3, storage.len());
    let all = storage.get_slot_range(None, None);
    assert!(contains_hash(&all, hash_of(1, 0)));
    assert!(contains_hash(&all, hash_of(2, 1)));
    assert!(contains_hash(&all, hash_of(3, 0)));
}

#[test]
fn test_load_prunes_over_capacity() {
    let recovered = vec![
        (hash_of(2, 1), block_at(2, 1)),
        (hash_of(1, 0), block_at(1, 0)),
        (hash_of(3, 0), block_at(3, 0)),
    ];
    let (storage, evicted) = BlockStore::load(&config(2), recovered).unwrap();
    assert_eq!(vec![hash_of(1, 0)], evicted);
    assert_eq!(2, storage.len());
}

#[test]
fn test_load_rejects_duplicate_hash() {
    let recovered = vec![(7, block_at(1, 0)), (7, block_at(2, 0))];
    let r = BlockStore::load(&config(5), recovered);
    assert!(matches!(r, Err(StorageError::Corruption)));
}

#[test]
fn test_load_rejects_bad_thread() {
    let recovered = vec![(7, block_at(1, 5))];
    let r = BlockStore::load(&config(5), recovered);
    assert!(matches!(r, Err(StorageError::Corruption)));
}

#[test]
fn test_load_rejects_bad_config() {
    let r = BlockStore::load(
        &StorageConfig {
            max_stored_blocks: 0,
            thread_count: 2,
            cache_capacity: 256,
            flush_interval_ms: None,
        },
        vec![],
    );
    assert!(matches!(r, Err(StorageError::ConfigurationError)));
}

#[test]
fn test_capacity_of_one() {
    let mut storage = BlockStore::new(&config(1)).unwrap();
    add_block(&mut storage, 1, 0);
    assert_eq!(1, storage.len());
    add_block(&mut storage, 2, 0);
    assert_eq!(1, storage.len());
    let all = storage.get_slot_range(None, None);
    assert_eq!(hash_of(2, 0), all[0].0);
}

#[test]
fn test_slot_order_both_components() {
    // period dominates
    assert!(Slot::new(1, 1).lt(&Slot::new(2, 0)));
    // the thread index breaks ties within one period
    assert!(Slot::new(2, 0).lt(&Slot::new(2, 1)));
    assert!(!Slot::new(2, 1).lt(&Slot::new(2, 1)));
    assert!(Slot::new(2, 1).le(&Slot::new(2, 1)));
    assert!(!Slot::new(3, 0).le(&Slot::new(2, 1)));
}

#[test]
fn test_slot_linear_index() {
    assert_eq!(0u128, Slot::new(0, 0).index(2));
    assert_eq!(5u128, Slot::new(2, 1).index(2));
    assert_eq!(1u128, Slot::new(0, 1).index(32));
    assert_eq!(u64::MAX as u128 * 32 + 31, Slot::new(u64::MAX, 31).index(32));
}

#[test]
fn test_getters() {
    let storage = BlockStore::new(&config(5)).unwrap();
    assert_eq!(5, storage.capacity());
    assert_eq!(2, storage.thread_count());
}
