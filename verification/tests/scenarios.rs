use s3fifo::S3FIFO;
use std::hash::{BuildHasher, Hasher};

/// A hasher under which an integer key is its own hash.
struct SelfHasher(u64);

impl Hasher for SelfHasher {
    fn finish(&self) -> u64 {
        self.0
    }

    fn write(&mut self, bytes: &[u8]) {
        for b in bytes {
            self.0 = (self.0 << 8) | u64::from(*b);
        }
    }

    fn write_u64(&mut self, i: u64) {
        self.0 = i;
    }
}

struct SelfHash;

impl BuildHasher for SelfHash {
    type Hasher = SelfHasher;

    fn build_hasher(&self) -> SelfHasher {
        SelfHasher(0)
    }
}

fn cache_of(capacity: usize) -> S3FIFO<u64, u64, SelfHash> {
    S3FIFO::with_hasher(capacity, SelfHash)
}

#[test]
fn cold_insert_cold_evict() {
    let mut cache = cache_of(10);
    cache.put(1, 10);
    assert_eq!(cache.small_position(1, &1), Some(0));
    assert_eq!(cache.small_len(), 1);
    cache.put(2, 20);
    // key 1 left the small queue unused: its hash is in the ghost queue
    assert_eq!(cache.small_position(1, &1), None);
    assert_eq!(cache.main_position(1, &1), None);
    assert!(cache.ghost_contains(1));
    assert_eq!(cache.small_position(2, &2), Some(0));
    for k in 3..=11u64 {
        cache.put(k, k * 10);
        assert_eq!(cache.small_len(), 1);
        assert_eq!(cache.main_len(), 0);
        assert_eq!(cache.small_position(k, &k), Some(0));
        assert!(cache.ghost_contains(k - 1));
    }
    assert_eq!(cache.small_len(), 1);
    assert_eq!(cache.main_len(), 0);
    assert_eq!(cache.len(), 1);
    assert_eq!(cache.small_position(11, &11), Some(0));
    // the ghost queue holds nine hashes: the nine that arrived last
    assert_eq!(cache.ghost_len(), 9);
    assert!(!cache.ghost_contains(1));
    for k in 2..=10u64 {
        assert!(cache.ghost_contains(k));
    }
    assert!(!cache.ghost_contains(11));
    assert_eq!(cache.get(&1), None);
    assert_eq!(cache.get(&11), Some(&110));
}

#[test]
fn ghost_promotes_to_main() {
    let mut cache = cache_of(10);
    cache.put(1, 10);
    cache.put(2, 20);
    assert!(cache.ghost_contains(1));
    assert_eq!(cache.put(1, 11), None);
    assert_eq!(cache.main_position(1, &1), Some(0));
    assert_eq!(cache.small_position(1, &1), None);
    assert_eq!(cache.small_position(2, &2), Some(0));
    assert_eq!(cache.main_position(2, &2), None);
    assert_eq!(cache.main_len(), 1);
    assert_eq!(cache.small_len(), 1);
    assert_eq!(cache.frequency(1, &1), Some(0));
    assert_eq!(cache.get(&1), Some(&11));
    assert_eq!(cache.get(&2), Some(&20));
}

#[test]
fn hot_key_survives() {
    let mut cache = cache_of(10);
    cache.put(1, 10);
    assert_eq!(cache.frequency(1, &1), Some(0));
    assert_eq!(cache.get(&1), Some(&10));
    assert_eq!(cache.frequency(1, &1), Some(1));
    assert_eq!(cache.get(&1), Some(&10));
    assert_eq!(cache.frequency(1, &1), Some(2));
    assert_eq!(cache.get(&1), Some(&10));
    assert_eq!(cache.frequency(1, &1), Some(3));
    cache.put(2, 20);
    // first pass over the small queue: key 1 moves to the main queue,
    // its counter lowered to 2
    assert_eq!(cache.main_position(1, &1), Some(0));
    assert_eq!(cache.frequency(1, &1), Some(2));
    assert_eq!(cache.small_position(2, &2), Some(0));
    assert!(!cache.ghost_contains(1));
    for k in 3..=11u64 {
        cache.put(k, k * 10);
    }
    assert_eq!(cache.main_position(1, &1), Some(0));
    assert_eq!(cache.frequency(1, &1), Some(2));
    assert_eq!(cache.main_len(), 1);
    assert_eq!(cache.small_len(), 1);
    assert_eq!(cache.get(&1), Some(&10));
    assert_eq!(cache.get(&11), Some(&110));
    assert_eq!(cache.get(&2), None);
}

#[test]
fn value_replace_preserves_entry() {
    let mut cache: S3FIFO<u64, String, SelfHash> = S3FIFO::with_hasher(10, SelfHash);
    assert_eq!(cache.put(7, String::from("a")), None);
    assert_eq!(cache.frequency(7, &7), Some(0));
    assert_eq!(cache.put(7, String::from("b")), Some(String::from("a")));
    assert_eq!(cache.frequency(7, &7), Some(0));
    assert_eq!(cache.small_position(7, &7), Some(0));
    assert_eq!(cache.len(), 1);
    assert_eq!(cache.get(&7), Some(&String::from("b")));
    assert_eq!(cache.frequency(7, &7), Some(1));
    assert_eq!(cache.put(7, String::from("c")), Some(String::from("b")));
    assert_eq!(cache.frequency(7, &7), Some(1));
}

#[test]
fn main_recycling() {
    let mut cache = cache_of(100);
    // Ten at a time: fill the small queue with nine hot keys behind one, let
    // one more arrival drain it into the main queue.
    let mut next_cold = 1000u64;
    let mut k = 1u64;
    while cache.main_len() < 90 {
        // the small queue holds at most one cold entry here
        while cache.small_len() < 10 && k <= 90 {
            cache.put(k, k);
            cache.get(&k);
            cache.get(&k);
            k += 1;
        }
        cache.put(next_cold, next_cold);
        next_cold += 1;
    }
    assert_eq!(cache.main_len(), 90);
    // every main entry is one of the keys 1 to 90; saturate their counters
    let mut in_main: Vec<u64> = Vec::new();
    for key in 1..=90u64 {
        if let Some(at) = cache.main_position(key, &key) {
            assert!(at < 90);
            in_main.push(key);
        }
    }
    assert_eq!(in_main.len(), 90);
    for key in 1..=90u64 {
        cache.get(&key);
        cache.get(&key);
        cache.get(&key);
        assert_eq!(cache.frequency(key, &key), Some(3));
    }
    let head = (1..=90u64).find(|key| cache.main_position(*key, key) == Some(0)).unwrap();
    let second = (1..=90u64).find(|key| cache.main_position(*key, key) == Some(1)).unwrap();
    // A key that the ghost queue remembers forces an eviction from the full
    // main queue.
    let mut remembered = None;
    for cold in 1000..next_cold {
        if cache.ghost_contains(cold) && cache.frequency(cold, &cold).is_none() {
            remembered = Some(cold);
        }
    }
    let back = remembered.unwrap();
    assert_eq!(cache.put(back, 1), None);
    // two laps lowered every counter to 1, the third dropped the head
    assert_eq!(cache.main_len(), 90);
    assert_eq!(cache.frequency(head, &head), None);
    assert_eq!(cache.get(&head), None);
    assert_eq!(cache.main_position(second, &second), Some(0));
    assert_eq!(cache.main_position(back, &back), Some(89));
    assert_eq!(cache.frequency(back, &back), Some(0));
    for key in 1..=90u64 {
        if key != head {
            assert_eq!(cache.frequency(key, &key), Some(1));
        }
    }
    assert_eq!(cache.index_len(), cache.small_len() + cache.main_len());
}
