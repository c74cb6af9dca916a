use tier_cache::CacheError;
use tier_cache::store::DiskStore;
use tier_cache::store::is_temp_name;

fn small_store() -> DiskStore {
    DiskStore::new(b"data".to_vec(), 1024, 4)
}

#[test]
fn write_read_remove_round_trip() {
    let mut s = small_store();
    assert_eq!(s.write(7, vec![1, 2, 3, 4]), Ok(()));
    assert!(s.record_exists(7));
    assert_eq!(s.read(7), Ok(Some(vec![1, 2, 3, 4])));
    // replacing the record keeps one durable copy
    assert_eq!(s.write(7, vec![9, 9, 9, 9]), Ok(()));
    assert_eq!(s.read(7), Ok(Some(vec![9, 9, 9, 9])));
    s.remove(7);
    assert!(!s.record_exists(7));
    assert_eq!(s.read(7), Ok(None));
    // removing an absent key is a no-op
    s.remove(7);
    assert_eq!(s.read(7), Ok(None));
}

#[test]
fn write_rejects_wrong_size() {
    let mut s = small_store();
    assert_eq!(s.write(7, vec![1, 2]), Err(CacheError::InvalidRecordSize));
    assert!(!s.record_exists(7));
}

#[test]
fn corrupt_record_is_surfaced() {
    let mut s = small_store();
    s.plant_corrupt_record(5, vec![1, 2]);
    assert!(s.record_exists(5));
    assert_eq!(s.read(5), Err(CacheError::CorruptRecord));
}

#[test]
fn commit_without_temporary_fails() {
    let mut s = small_store();
    assert_eq!(s.commit_write(5), Err(CacheError::MissingTemporary));
    assert!(!s.record_exists(5));
}

#[test]
fn interrupted_write_is_invisible() {
    let mut s = small_store();
    assert_eq!(s.write(7, vec![1, 1, 1, 1]), Ok(()));
    // a write interrupted after the temporary entry exists but before the
    // atomic commit: the old record stays intact
    assert_eq!(s.begin_write(7, vec![2, 2, 2, 2]), Ok(()));
    assert_eq!(s.read(7), Ok(Some(vec![1, 1, 1, 1])));
    // for a fresh key, the final path must not appear at all
    assert_eq!(s.begin_write(9, vec![3, 3, 3, 3]), Ok(()));
    assert!(!s.record_exists(9));
    assert_eq!(s.read(9), Ok(None));
    // a subsequent full write still succeeds and consumes the orphan
    assert_eq!(s.write(9, vec![4, 4, 4, 4]), Ok(()));
    assert_eq!(s.read(9), Ok(Some(vec![4, 4, 4, 4])));
    // the orphaned temporary for key 7 is overwritten by a later write too
    assert_eq!(s.write(7, vec![5, 5, 5, 5]), Ok(()));
    assert_eq!(s.read(7), Ok(Some(vec![5, 5, 5, 5])));
}

#[test]
fn shard_placement_and_paths() {
    let s = small_store();
    assert_eq!(s.shard_of(1031), 7);
    assert_eq!(s.shard_of(7), 7);
    assert_eq!(s.shard_of(1024), 0);
    assert_eq!(s.record_path(1031), b"data/7/1031".to_vec());
    assert_eq!(s.record_path(7), b"data/7/7".to_vec());
    assert_eq!(s.temp_path(1031), b"data/7/1031.tmp".to_vec());
    assert_eq!(s.root_directory(), &b"data".to_vec());
}

#[test]
fn temp_names_are_recognized() {
    assert!(is_temp_name(&b"1031.tmp".to_vec()));
    assert!(is_temp_name(&b".tmp".to_vec()));
    assert!(!is_temp_name(&b"1031".to_vec()));
    assert!(!is_temp_name(&b"tmp".to_vec()));
    assert!(!is_temp_name(&b"1031.txt".to_vec()));
}

#[test]
fn file_names_enumerate_all_entries() {
    let mut s = small_store();
    assert_eq!(s.write(7, vec![1, 1, 1, 1]), Ok(()));
    assert_eq!(s.begin_write(9, vec![2, 2, 2, 2]), Ok(()));
    s.add_unrelated_file(0, b"README".to_vec());
    let names = s.file_names();
    assert_eq!(names.len(), 3);
    assert!(names.contains(&b"7".to_vec()));
    assert!(names.contains(&b"9.tmp".to_vec()));
    assert!(names.contains(&b"README".to_vec()));
}
