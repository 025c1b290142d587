use classic_structures::bloom_filter::BloomFilter;

// Bytes of the bit array for `size` values at false positive rate `fp_rate`.
fn sized_bytes(size: usize, fp_rate: f64) -> usize {
    let num = -1.0f64 * size as f64 * fp_rate.ln();
    let den = 2.0f64.ln().powf(2.0);
    (num / den).ceil() as usize
}

fn sized_hashes(m: usize, n: usize) -> usize {
    ((m as f64 / n as f64) * 2.0f64.ln()).ceil() as usize
}

fn sized_filter(size: usize, fp_rate: f64) -> BloomFilter {
    let m = sized_bytes(size, fp_rate);
    let k = sized_hashes(m, size);
    BloomFilter::with_sizes(m, k)
}

#[test]
fn bloom_filter_test_insert() {
    let mut filter = sized_filter(2, 0.001);
    filter.insert("test");
    assert!(!filter.get("bar"));
    assert!(!filter.get("foo"));
    assert!(!filter.get("bazz"));
    assert!(filter.get("test"));
}

#[test]
fn sizing_formulas() {
    assert_eq!(sized_bytes(2, 0.001), 29);
    assert_eq!(sized_hashes(29, 2), 11);
}

#[test]
fn no_false_negatives() {
    let mut filter = sized_filter(200, 0.01);
    let values: Vec<String> = (0..200).map(|i| format!("value-{}", i)).collect();
    for v in values.iter() {
        filter.insert(v);
    }
    for v in values.iter() {
        assert!(filter.get(v));
    }
}

#[test]
fn false_positive_rate_is_low() {
    let mut filter = sized_filter(500, 0.01);
    for i in 0..500 {
        filter.insert(&format!("in-{}", i));
    }
    let trials = 5000;
    let mut hits = 0;
    for i in 0..trials {
        if filter.get(&format!("out-{}", i)) {
            hits += 1;
        }
    }
    assert!((hits as f64) / (trials as f64) < 0.05);
}

#[test]
fn empty_filter_holds_nothing() {
    let filter = BloomFilter::with_sizes(4, 3);
    assert!(!filter.get("anything"));
    assert!(!filter.get(""));
}

#[test]
fn bit_for_hash_wraps_at_bit_count() {
    let filter = BloomFilter::with_sizes(29, 11);
    assert_eq!(filter.bit_for_hash(77), 77);
    assert_eq!(filter.bit_for_hash(232), 0);
    assert_eq!(filter.bit_for_hash(500), 36);
}
