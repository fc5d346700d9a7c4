use s3fifo::S3FIFO;
use std::collections::HashMap;

struct Rng(u64);

impl Rng {
    fn next(&mut self) -> u64 {
        let mut x = self.0;
        x ^= x >> 12;
        x ^= x << 25;
        x ^= x >> 27;
        self.0 = x;
        x.wrapping_mul(0x2545_F491_4F6C_DD1D)
    }

    /// A number in [0, 1).
    fn unit(&mut self) -> f64 {
        (self.next() >> 11) as f64 / (1u64 << 53) as f64
    }
}

/// Draws ranks 1 to `n` with probability in proportion to `1 / rank^s`.
struct Zipf {
    cumulative: Vec<f64>,
}

impl Zipf {
    fn new(n: usize, s: f64) -> Zipf {
        let mut cumulative = Vec::with_capacity(n);
        let mut sum = 0.0f64;
        for rank in 1..=n {
            sum += 1.0 / (rank as f64).powf(s);
            cumulative.push(sum);
        }
        Zipf { cumulative }
    }

    fn sample(&self, rng: &mut Rng) -> u64 {
        let total = self.cumulative[self.cumulative.len() - 1];
        let x = rng.unit() * total;
        let at = self.cumulative.partition_point(|c| *c <= x);
        std::cmp::min(at, self.cumulative.len() - 1) as u64 + 1
    }
}

/// A least-recently-used cache of keys, to measure against.
struct Lru {
    capacity: usize,
    place: HashMap<u64, usize>,
    keys: Vec<u64>,
    prev: Vec<usize>,
    next: Vec<usize>,
    head: usize,
    tail: usize,
}

const NONE: usize = usize::MAX;

impl Lru {
    fn new(capacity: usize) -> Lru {
        Lru {
            capacity,
            place: HashMap::new(),
            keys: Vec::new(),
            prev: Vec::new(),
            next: Vec::new(),
            head: NONE,
            tail: NONE,
        }
    }

    fn unlink(&mut self, at: usize) {
        let (p, n) = (self.prev[at], self.next[at]);
        if p == NONE {
            self.head = n;
        } else {
            self.next[p] = n;
        }
        if n == NONE {
            self.tail = p;
        } else {
            self.prev[n] = p;
        }
    }

    fn push_front(&mut self, at: usize) {
        self.prev[at] = NONE;
        self.next[at] = self.head;
        if self.head != NONE {
            self.prev[self.head] = at;
        }
        self.head = at;
        if self.tail == NONE {
            self.tail = at;
        }
    }

    /// Whether the key was there; it is the most recent one afterwards.
    fn access(&mut self, key: u64) -> bool {
        if let Some(&at) = self.place.get(&key) {
            self.unlink(at);
            self.push_front(at);
            return true;
        }
        if self.capacity == 0 {
            return false;
        }
        let at = if self.keys.len() < self.capacity {
            self.keys.push(key);
            self.prev.push(NONE);
            self.next.push(NONE);
            self.keys.len() - 1
        } else {
            let at = self.tail;
            self.unlink(at);
            self.place.remove(&self.keys[at]);
            self.keys[at] = key;
            at
        };
        self.place.insert(key, at);
        self.push_front(at);
        false
    }
}

#[test]
fn zipfian_hit_ratio_beats_lru() {
    let upper_bound: usize = 1_000_000;
    let cache_cap = upper_bound / 100;
    let zipf = Zipf::new(upper_bound, 0.99);
    let mut rng = Rng(0x1234_5678_9ABC_DEF1);
    let mut cache: S3FIFO<u64, ()> = S3FIFO::new(cache_cap);
    let mut lru = Lru::new(cache_cap);
    let mut hits = 0u64;
    let mut lru_hits = 0u64;
    for _ in 0..upper_bound {
        let key = zipf.sample(&mut rng);
        if cache.get(&key).is_some() {
            hits += 1;
        } else {
            cache.put(key, ());
        }
        if lru.access(key) {
            lru_hits += 1;
        }
    }
    let ratio = hits as f64 / upper_bound as f64;
    let lru_ratio = lru_hits as f64 / upper_bound as f64;
    println!("S3-FIFO {ratio}, LRU {lru_ratio}");
    assert!(ratio > lru_ratio, "S3-FIFO {ratio}, LRU {lru_ratio}");
    assert!(ratio > 0.0 && ratio < 1.0);
    assert_eq!(cache.index_len(), cache.len());
    assert!(cache.small_len() <= cache_cap / 10);
    assert!(cache.main_len() <= cache_cap * 9 / 10);
}

#[test]
fn zipf_sampler_is_skewed() {
    let zipf = Zipf::new(1000, 0.99);
    let mut rng = Rng(7);
    let mut first = 0u64;
    let draws = 100_000u64;
    for _ in 0..draws {
        let key = zipf.sample(&mut rng);
        assert!((1..=1000).contains(&key));
        if key == 1 {
            first += 1;
        }
    }
    // rank 1 has weight 1 of about 7.5 in all
    assert!(first > draws / 10 && first < draws / 5, "rank 1 drawn {first} times");
}
