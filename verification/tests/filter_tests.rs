use tier_cache::filter::BloomFilter;

#[test]
fn filter_no_false_negatives() {
    let mut f = BloomFilter::new_for_fp_rate(1000, 10);
    let keys = [0u64, 7, 1031, 42, u64::MAX, 999_999_999];
    for k in &keys {
        f.set(k);
    }
    for k in &keys {
        assert!(f.check(k));
    }
}

#[test]
fn fresh_filter_rejects() {
    let f = BloomFilter::new_for_fp_rate(1000, 10);
    assert!(!f.check(&42));
    assert!(!f.check(&0));
}
