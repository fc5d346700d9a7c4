use s3fifo::Bucket;

#[test]
fn bucket_starts_cold() {
    let b = Bucket::new(4u64, "v", 99);
    assert_eq!(b.key, 4);
    assert_eq!(b.value, "v");
    assert_eq!(b.hash, 99);
    assert_eq!(b.freq, 0);
}

#[test]
fn incr_freq_saturates() {
    let mut b = Bucket::new(1u64, 1u64, 1);
    b.incr_freq();
    assert_eq!(b.freq, 1);
    b.incr_freq();
    assert_eq!(b.freq, 2);
    b.incr_freq();
    assert_eq!(b.freq, 3);
    b.incr_freq();
    assert_eq!(b.freq, 3);
    b.incr_freq();
    assert_eq!(b.freq, 3);
    assert_eq!(b.key, 1);
    assert_eq!(b.value, 1);
    assert_eq!(b.hash, 1);
}

#[test]
fn decr_freq_saturates() {
    let mut b = Bucket::new(1u64, 1u64, 1);
    b.decr_freq();
    assert_eq!(b.freq, 0);
    b.incr_freq();
    b.incr_freq();
    b.decr_freq();
    assert_eq!(b.freq, 1);
    b.decr_freq();
    assert_eq!(b.freq, 0);
    b.decr_freq();
    assert_eq!(b.freq, 0);
}

#[test]
fn incr_freq_brings_a_counter_out_of_range_back() {
    let mut b = Bucket { key: 0u8, value: 0u8, freq: 200, hash: 0 };
    b.incr_freq();
    assert_eq!(b.freq, 3);
}
