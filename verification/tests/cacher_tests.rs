use tier_cache::CacheError;
use tier_cache::default_cacher::DefaultCacher;
use tier_cache::default_cacher::HotCacheProbe;
use tier_cache::hot_cache::CacheEntry;
use tier_cache::hot_cache::HotCache;
use tier_cache::store::DiskStore;

const RECORD_SIZE: usize = 4;

fn fresh_cacher() -> DefaultCacher {
    let disk = DiskStore::new(b"data".to_vec(), 1024, RECORD_SIZE);
    DefaultCacher::new(disk, 1000, 10)
}

fn v(b: u8) -> Vec<u8> {
    vec![b; RECORD_SIZE]
}

#[test]
fn end_to_end_scenario() {
    let mut c = fresh_cacher();
    // store key 7, then load it: served without a second disk access,
    // observable as a hot-tier hit
    assert_eq!(c.store(7, v(1), 1), Ok(()));
    assert_eq!(c.load(7, 1, HotCacheProbe::Find), Ok(Some(v(1))));
    assert_eq!(c.requested, 1);
    assert_eq!(c.in_hotcache, 1);
    // key 1031 lands in shard 7 of 1024
    assert_eq!(c.store(1031, v(2), 1), Ok(()));
    assert_eq!(c.disk_cacher().shard_of(1031), 7);
    assert_eq!(c.disk_cacher().record_path(1031), b"data/7/1031".to_vec());
    // removing key 7's record: existence is gone, the filter bit stays (the
    // documented false-positive-after-delete), and a load finds nothing
    c.disk_cache.remove(7);
    assert!(!c.disk_cacher().record_exists(7));
    assert!(c.bloom_filter.check(&7));
    assert_eq!(c.load(7, 1, HotCacheProbe::Bypass), Ok(None));
}

#[test]
fn disk_is_authoritative() {
    let mut c = fresh_cacher();
    assert_eq!(c.store(5, v(9), 1), Ok(()));
    // bypassing the hot cache simulates eviction: the disk still serves it
    assert_eq!(c.load(5, 1, HotCacheProbe::Bypass), Ok(Some(v(9))));
    // restart: rebuild an orchestrator over the same store and recover
    let disk = c.disk_cache;
    let mut c2 = DefaultCacher::new_and_init_bloom(disk, 1000, 10).unwrap();
    assert_eq!(c2.load(5, 1, HotCacheProbe::Bypass), Ok(Some(v(9))));
    assert_eq!(c2.load(5, 1, HotCacheProbe::Find), Ok(Some(v(9))));
}

#[test]
fn promotion_on_disk_hit() {
    let mut disk = DiskStore::new(b"data".to_vec(), 1024, RECORD_SIZE);
    assert_eq!(disk.write(33, v(3)), Ok(()));
    let mut c = DefaultCacher::new_and_init_bloom(disk, 1000, 10).unwrap();
    // first load misses the hot cache and hits disk
    assert_eq!(c.load(33, 1, HotCacheProbe::Find), Ok(Some(v(3))));
    assert_eq!(c.in_hotcache, 0);
    // the hit promoted the record: the next load is served by the hot tier
    assert_eq!(c.load(33, 1, HotCacheProbe::Find), Ok(Some(v(3))));
    assert_eq!(c.in_hotcache, 1);
    // and the entry is directly visible to the non-evicting probe
    assert_eq!(c.load_from_hot_cache(33), Some(v(3)));
}

#[test]
fn filter_rejects_unknown_key() {
    let mut c = fresh_cacher();
    assert_eq!(c.store(1, v(1), 1), Ok(()));
    assert_eq!(c.load(424242, 1, HotCacheProbe::Find), Ok(None));
    assert_eq!(c.requested, 1);
    assert_eq!(c.in_hotcache, 0);
}

#[test]
fn failed_store_leaves_no_record() {
    let mut c = fresh_cacher();
    assert_eq!(c.store(8, vec![1], 1), Err(CacheError::InvalidRecordSize));
    // nothing became durable and nothing entered the hot cache
    assert!(!c.disk_cacher().record_exists(8));
    assert_eq!(c.load_from_hot_cache(8), None);
    assert_eq!(c.load(8, 1, HotCacheProbe::Find), Ok(None));
    // the filter bit was set before the write began and stays set
    assert!(c.bloom_filter.check(&8));
}

#[test]
fn recovery_sets_exactly_the_committed_keys() {
    let mut disk = DiskStore::new(b"data".to_vec(), 8, RECORD_SIZE);
    // five committed records across several shards
    let keys = [1u64, 2, 9, 10, 17];
    for (i, k) in keys.iter().enumerate() {
        assert_eq!(disk.write(*k, v(i as u8)), Ok(()));
    }
    // an orphaned temporary from an interrupted write
    assert_eq!(disk.begin_write(100, v(7)), Ok(()));
    // unrelated files with unparsable names
    disk.add_unrelated_file(0, b"README".to_vec());
    disk.add_unrelated_file(3, b"junk.txt".to_vec());
    disk.add_unrelated_file(3, b"007".to_vec());
    let c = DefaultCacher::new_and_init_bloom(disk, 1000, 10).unwrap();
    for k in &keys {
        assert!(c.bloom_filter.check(k));
    }
    // the interrupted key was never committed and its temporary was skipped
    assert!(!c.bloom_filter.check(&100));
    // keys near the unrelated names were not set either
    assert!(!c.bloom_filter.check(&7));
}

#[test]
fn corruption_is_surfaced_through_load() {
    let mut c = fresh_cacher();
    assert_eq!(c.store(11, v(6), 1), Ok(()));
    // something outside the store damages the record on disk
    c.disk_cache.plant_corrupt_record(11, vec![1, 2]);
    // the read path propagates the corruption instead of swallowing it,
    // and the hot cache receives nothing from the corrupt read
    assert_eq!(c.load(11, 1, HotCacheProbe::Bypass), Err(CacheError::CorruptRecord));
    assert_eq!(c.load_from_disk(11, 1), Err(CacheError::CorruptRecord));
    // the stale hot entry from the earlier store is untouched
    assert_eq!(c.load_from_hot_cache(11), Some(v(6)));
}

#[test]
fn lookup_and_find_agree_on_values() {
    let mut c = fresh_cacher();
    assert_eq!(c.store(4, v(4), 1), Ok(()));
    assert_eq!(c.store(6, v(6), 1), Ok(()));
    assert_eq!(c.load_from_hot_cache(4), Some(v(4)));
    assert_eq!(c.lookup_hot_cache(4), Some(v(4)));
    assert_eq!(c.load_from_hot_cache(4), Some(v(4)));
    assert_eq!(c.lookup_hot_cache(12345), None);
}

#[test]
fn load_from_disk_promotes() {
    let mut disk = DiskStore::new(b"data".to_vec(), 1024, RECORD_SIZE);
    assert_eq!(disk.write(21, v(5)), Ok(()));
    let mut c = DefaultCacher::new(disk, 1000, 10);
    assert_eq!(c.load_from_hot_cache(21), None);
    assert_eq!(c.load_from_disk(21, 1), Ok(Some(v(5))));
    assert_eq!(c.load_from_hot_cache(21), Some(v(5)));
    assert_eq!(c.load_from_disk(99, 1), Ok(None));
}

#[test]
fn hot_cache_evicts_oldest_over_capacity() {
    let mut h = HotCache::new(2);
    h.insert_with_weight(CacheEntry::new(1, vec![1]), 1);
    h.insert_with_weight(CacheEntry::new(2, vec![2]), 1);
    h.insert_with_weight(CacheEntry::new(3, vec![3]), 1);
    assert_eq!(h.find(1), None);
    assert_eq!(h.find(2), Some(vec![2]));
    assert_eq!(h.find(3), Some(vec![3]));
    // an entry heavier than the whole capacity is not inserted
    let mut small = HotCache::new(1);
    small.insert_with_weight(CacheEntry::new(9, vec![9]), 5);
    assert_eq!(small.find(9), None);
    // same-key insertion replaces wholesale
    let mut rep = HotCache::new(10);
    rep.insert_with_weight(CacheEntry::new(5, vec![1]), 1);
    rep.insert_with_weight(CacheEntry::new(5, vec![2]), 1);
    assert_eq!(rep.find(5), Some(vec![2]));
}

#[test]
fn cache_entry_accessors() {
    let e = CacheEntry::new(3, vec![1, 2]);
    assert_eq!(e.key(), 3);
    assert_eq!(e.value(), vec![1, 2]);
}
