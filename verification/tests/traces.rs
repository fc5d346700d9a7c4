use s3fifo::S3FIFO;
use std::collections::VecDeque;

/// The policy written down once more, as plainly as possible, to hold the
/// cache against.
#[derive(Clone, Debug, PartialEq)]
struct Entry {
    hash: u64,
    key: u64,
    value: u64,
    freq: u8,
}

struct Model {
    capacity: usize,
    small: VecDeque<Entry>,
    main: VecDeque<Entry>,
    ghost: VecDeque<u64>,
}

impl Model {
    fn new(capacity: usize) -> Model {
        Model { capacity, small: VecDeque::new(), main: VecDeque::new(), ghost: VecDeque::new() }
    }

    fn small_cap(&self) -> usize {
        self.capacity / 10
    }

    fn main_cap(&self) -> usize {
        self.capacity * 9 / 10
    }

    fn find(&mut self, hash: u64, key: u64) -> Option<&mut Entry> {
        self.small
            .iter_mut()
            .chain(self.main.iter_mut())
            .find(|e| e.hash == hash && e.key == key)
    }

    fn get(&mut self, hash: u64, key: u64) -> Option<u64> {
        match self.find(hash, key) {
            Some(e) => {
                e.freq = std::cmp::min(3, e.freq + 1);
                Some(e.value)
            }
            None => None,
        }
    }

    fn ghost_insert(&mut self, hash: u64) {
        if self.main_cap() == 0 || self.ghost.contains(&hash) {
            return;
        }
        if self.ghost.len() >= self.main_cap() {
            self.ghost.pop_front();
        }
        self.ghost.push_back(hash);
    }

    fn evict_main(&mut self) -> usize {
        let mut steps = 0;
        while let Some(mut e) = self.main.pop_front() {
            steps += 1;
            let f = e.freq.saturating_sub(1);
            if f > 0 {
                e.freq = f;
                self.main.push_back(e);
            } else {
                return steps;
            }
        }
        steps
    }

    fn evict_small(&mut self) -> usize {
        let mut steps = 0;
        while let Some(mut e) = self.small.pop_front() {
            steps += 1;
            let f = e.freq.saturating_sub(1);
            if f > 0 {
                e.freq = f;
                if self.main.len() >= self.main_cap() {
                    let inner = self.evict_main();
                    assert!(inner <= 4 * self.capacity);
                }
                self.main.push_back(e);
            } else {
                self.ghost_insert(e.hash);
                return steps;
            }
        }
        steps
    }

    fn put(&mut self, hash: u64, key: u64, value: u64) -> Option<u64> {
        if let Some(e) = self.find(hash, key) {
            return Some(std::mem::replace(&mut e.value, value));
        }
        let fresh = Entry { hash, key, value, freq: 0 };
        if self.ghost.contains(&hash) {
            if self.main.len() >= self.main_cap() {
                let steps = self.evict_main();
                assert!(steps <= 4 * self.capacity);
            }
            self.main.push_back(fresh);
        } else if self.small_cap() == 0 {
            self.ghost_insert(hash);
        } else {
            if self.small.len() >= self.small_cap() {
                let steps = self.evict_small();
                assert!(steps <= 4 * self.capacity);
            }
            self.small.push_back(fresh);
        }
        None
    }
}

struct Rng(u64);

impl Rng {
    fn next(&mut self) -> u64 {
        self.0 = self.0.wrapping_mul(6364136223846793005).wrapping_add(1442695040888963407);
        self.0 >> 33
    }
}

/// Holds every observation the cache offers against the model.
fn compare(cache: &S3FIFO<u64, u64>, model: &Model, keys: u64, hash_of: fn(u64) -> u64) {
    let small_cap = model.capacity / 10;
    let main_cap = model.capacity * 9 / 10;
    assert_eq!(cache.capacity(), model.capacity);
    assert_eq!(cache.small_len(), model.small.len());
    assert_eq!(cache.main_len(), model.main.len());
    assert_eq!(cache.ghost_len(), model.ghost.len());
    assert_eq!(cache.len(), model.small.len() + model.main.len());
    // the index holds one slot for each entry of the two queues
    assert_eq!(cache.index_len(), cache.small_len() + cache.main_len());
    // each queue is within its bound
    assert!(cache.small_len() <= small_cap);
    assert!(cache.main_len() <= main_cap);
    assert!(cache.ghost_len() <= main_cap);
    let mut seen = 0;
    for key in 0..keys {
        let hash = hash_of(key);
        let in_small = cache.small_position(hash, &key);
        let in_main = cache.main_position(hash, &key);
        // no key is in both queues
        assert!(in_small.is_none() || in_main.is_none());
        assert_eq!(in_small, model.small.iter().position(|e| e.hash == hash && e.key == key));
        assert_eq!(in_main, model.main.iter().position(|e| e.hash == hash && e.key == key));
        let freq = cache.frequency(hash, &key);
        let entry = model.small.iter().chain(model.main.iter()).find(|e| e.key == key);
        assert_eq!(freq, entry.map(|e| e.freq));
        // the index finds every entry of the queues, and nothing else
        assert_eq!(freq.is_some(), in_small.is_some() || in_main.is_some());
        if let Some(f) = freq {
            // every counter is 0, 1, 2 or 3
            assert!(f <= 3);
            seen += 1;
        }
        assert_eq!(cache.ghost_contains(hash), model.ghost.contains(&hash));
    }
    assert_eq!(seen, cache.len());
}

fn run_trace(capacity: usize, keys: u64, steps: usize, seed: u64, hash_of: fn(u64) -> u64) {
    let mut cache: S3FIFO<u64, u64> = S3FIFO::new(capacity);
    let mut model = Model::new(capacity);
    let mut rng = Rng(seed);
    compare(&cache, &model, keys, hash_of);
    for step in 0..steps {
        // a skewed choice of key, so that some are hot
        let a = rng.next() % keys;
        let b = rng.next() % keys;
        let key = if rng.next() % 3 == 0 { a } else { std::cmp::min(a, b) % (keys / 4 + 1) };
        let hash = hash_of(key);
        match rng.next() % 4 {
            0 => {
                let value = step as u64;
                assert_eq!(cache.put_hashed(hash, key, value), model.put(hash, key, value));
            }
            1 => {
                let expected = model.get(hash, key);
                match cache.get_mut_hashed(hash, &key) {
                    Some(v) => {
                        assert_eq!(Some(*v), expected);
                        *v += 1;
                    }
                    None => assert_eq!(None, expected),
                }
                if let Some(e) = model.find(hash, key) {
                    e.value += 1;
                }
            }
            _ => {
                let expected = model.get(hash, key);
                let got = cache.get_hashed(hash, &key).copied();
                assert_eq!(got, expected);
                if got.is_none() {
                    let value = step as u64;
                    assert_eq!(cache.put_hashed(hash, key, value), model.put(hash, key, value));
                }
            }
        }
        compare(&cache, &model, keys, hash_of);
    }
}

fn own_hash(key: u64) -> u64 {
    key
}

fn crowded_hash(key: u64) -> u64 {
    key % 5
}

fn spread_hash(key: u64) -> u64 {
    key.wrapping_mul(0x9E37_79B9_7F4A_7C15)
}

#[test]
fn random_trace_capacity_10() {
    run_trace(10, 24, 3000, 1, own_hash);
}

#[test]
fn random_trace_capacity_20() {
    run_trace(20, 40, 3000, 2, spread_hash);
}

#[test]
fn random_trace_capacity_35() {
    run_trace(35, 80, 3000, 3, own_hash);
}

#[test]
fn random_trace_capacity_100() {
    run_trace(100, 300, 4000, 4, spread_hash);
}

#[test]
fn random_trace_with_colliding_hashes() {
    run_trace(30, 40, 3000, 5, crowded_hash);
}

#[test]
fn random_trace_small_queue_without_room() {
    for capacity in 2..10 {
        run_trace(capacity, 12, 800, 6 + capacity as u64, own_hash);
    }
}

#[test]
fn random_trace_capacity_0_and_1() {
    run_trace(0, 8, 300, 20, own_hash);
    run_trace(1, 8, 300, 21, own_hash);
}

#[test]
fn put_then_get_finds_the_value() {
    for capacity in [10usize, 11, 19, 20, 57, 100] {
        let mut cache: S3FIFO<u64, u64> = S3FIFO::new(capacity);
        for key in 0..200u64 {
            assert_eq!(cache.put(key, key + 1), None);
            assert_eq!(cache.get(&key), Some(&(key + 1)));
        }
    }
}

#[test]
fn second_put_returns_the_first_value() {
    let mut cache: S3FIFO<u64, u64> = S3FIFO::new(10);
    for key in 0..50u64 {
        assert_eq!(cache.put(key, 1), None);
        assert_eq!(cache.put(key, 2), Some(1));
        assert_eq!(cache.get(&key), Some(&2));
    }
}

#[test]
fn lengths_agree_under_the_default_hasher() {
    let mut cache: S3FIFO<u64, u64> = S3FIFO::new(50);
    let mut rng = Rng(99);
    for step in 0..5000u64 {
        let key = rng.next() % 120;
        if cache.get(&key).is_none() {
            cache.put(key, step);
        }
        assert_eq!(cache.index_len(), cache.small_len() + cache.main_len());
        assert_eq!(cache.len(), cache.index_len());
        assert!(cache.small_len() <= 5);
        assert!(cache.main_len() <= 45);
        assert!(cache.ghost_len() <= 45);
    }
    assert!(cache.len() > 0);
}

#[test]
fn eviction_ends_within_four_steps_an_entry() {
    // The model counts the heads that each eviction examines and fails
    // where one passes four times the capacity; here every entry is as
    // hot as it can be whenever an eviction comes.
    let capacity = 40;
    let mut cache: S3FIFO<u64, u64> = S3FIFO::new(capacity);
    let mut model = Model::new(capacity);
    for round in 0..30u64 {
        for key in 0..60u64 {
            let key = (key * 7 + round) % 60;
            assert_eq!(cache.put_hashed(key, key, round), model.put(key, key, round));
            for present in 0..60u64 {
                for _ in 0..3 {
                    assert_eq!(
                        cache.get_hashed(present, &present).copied(),
                        model.get(present, present)
                    );
                }
            }
        }
        compare(&cache, &model, 60, own_hash);
    }
}

/// A hasher that gives every key the same hash.
struct OneHasher;

impl std::hash::Hasher for OneHasher {
    fn finish(&self) -> u64 {
        42
    }

    fn write(&mut self, _bytes: &[u8]) {}
}

struct OneHash;

impl std::hash::BuildHasher for OneHash {
    type Hasher = OneHasher;

    fn build_hasher(&self) -> OneHasher {
        OneHasher
    }
}

fn one_hash(_key: u64) -> u64 {
    42
}

/// Runs one trace through `get`, `get_mut` and `put`, which hash the keys
/// themselves, and holds what they return against the model.
fn run_public_trace<S: std::hash::BuildHasher>(
    mut cache: S3FIFO<u64, u64, S>,
    capacity: usize,
    keys: u64,
    steps: usize,
    seed: u64,
    hash_of: fn(u64) -> u64,
) {
    let mut model = Model::new(capacity);
    let mut rng = Rng(seed);
    for step in 0..steps {
        let a = rng.next() % keys;
        let b = rng.next() % keys;
        let key = if rng.next() % 3 == 0 { a } else { std::cmp::min(a, b) % (keys / 4 + 1) };
        let hash = hash_of(key);
        match rng.next() % 4 {
            0 => {
                let value = step as u64;
                assert_eq!(cache.put(key, value), model.put(hash, key, value));
            }
            1 => {
                let expected = model.get(hash, key);
                match cache.get_mut(&key) {
                    Some(v) => {
                        assert_eq!(Some(*v), expected);
                        *v += 1;
                    }
                    None => assert_eq!(None, expected),
                }
                if let Some(e) = model.find(hash, key) {
                    e.value += 1;
                }
            }
            _ => {
                let expected = model.get(hash, key);
                let got = cache.get(&key).copied();
                assert_eq!(got, expected);
                if got.is_none() {
                    let value = step as u64;
                    assert_eq!(cache.put(key, value), model.put(hash, key, value));
                }
            }
        }
        assert_eq!(cache.small_len(), model.small.len());
        assert_eq!(cache.main_len(), model.main.len());
        assert_eq!(cache.ghost_len(), model.ghost.len());
        assert_eq!(cache.index_len(), cache.len());
    }
}

#[test]
fn public_trace_under_the_default_hasher() {
    // the default hasher gives these few keys hashes of their own, so the
    // model may file each key under itself
    run_public_trace(S3FIFO::new(30), 30, 90, 5000, 31, own_hash);
    run_public_trace(S3FIFO::new(100), 100, 400, 5000, 32, own_hash);
}

#[test]
fn public_trace_under_one_hash_for_all() {
    run_public_trace(S3FIFO::with_hasher(30, OneHash), 30, 90, 3000, 33, one_hash);
    run_public_trace(S3FIFO::with_hasher(7, OneHash), 7, 20, 1000, 34, one_hash);
}
