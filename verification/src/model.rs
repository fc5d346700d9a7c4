//! The cache as a mathematical value: a capacity and three sequences, and
//! the policy as functions on them.

use vstd::prelude::*;
use crate::bucket::{Bucket, MAX_FREQ};

verus! {

/// The state of a cache: its configured capacity and its three queues, each
/// with the head at index 0.
pub struct CacheView<K, V> {
    /// The configured capacity
    pub capacity: nat,
    /// The probationary queue
    pub small: Seq<Bucket<K, V>>,
    /// The queue of entries that have shown reuse
    pub main: Seq<Bucket<K, V>>,
    /// The hashes of entries that left the small queue unused
    pub ghosts: Seq<u64>,
}

impl<K, V> CacheView<K, V> {
    /// An empty cache of the given capacity.
    pub open spec fn empty(capacity: nat) -> Self {
        CacheView { capacity, small: Seq::empty(), main: Seq::empty(), ghosts: Seq::empty() }
    }

    /// How many entries the small queue may hold: a tenth of the capacity,
    /// rounded down.
    pub open spec fn small_cap(self) -> nat {
        self.capacity / 10
    }

    /// How many entries the main queue may hold: nine tenths of the
    /// capacity, rounded down.
    pub open spec fn main_cap(self) -> nat {
        self.capacity * 9 / 10
    }

    /// How many hashes the ghost queue may hold.
    pub open spec fn ghost_cap(self) -> nat {
        self.main_cap()
    }

    /// The entries of both queues, the small queue's first.
    pub open spec fn entries(self) -> Seq<Bucket<K, V>> {
        self.small + self.main
    }

    /// Whether an entry is filed under `hash` for `key`.
    pub open spec fn holds(self, hash: u64, key: K) -> bool {
        files(self.entries(), hash, key)
    }

    /// The entry filed under `hash` for `key`, where there is one.
    pub open spec fn entry(self, hash: u64, key: K) -> Bucket<K, V> {
        let i = choose|i: int|
            0 <= i < self.entries().len() && #[trigger] self.entries()[i].is(hash, key);
        self.entries()[i]
    }

    /// The value cached under `hash` for `key`.
    pub open spec fn value_of(self, hash: u64, key: K) -> Option<V> {
        if self.holds(hash, key) {
            Some(self.entry(hash, key).value)
        } else {
            None
        }
    }

    /// What holds of a cache between any two operations: each queue within
    /// its bound, every counter within its ceiling, no two entries filed
    /// under the same hash for the same key, no hash twice in the ghost
    /// queue.
    pub open spec fn inv(self) -> bool {
        &&& self.small.len() <= self.small_cap()
        &&& self.main.len() <= self.main_cap()
        &&& self.ghosts.len() <= self.ghost_cap()
        &&& self.ghosts.no_duplicates()
        &&& tempered(self.entries())
        &&& distinct(self.entries())
    }

    /// Whether `put` of `key` under `hash` keeps the pair: it does unless the
    /// key is new, the small queue may hold nothing and the ghost queue does
    /// not remember the hash.
    pub open spec fn keeps(self, hash: u64, key: K) -> bool {
        self.holds(hash, key) || self.ghosts.contains(hash) || self.small_cap() > 0
    }

    /// Whether every entry is filed under the hash that `hasher` gives its
    /// key.
    pub open spec fn hashed_by(self, hasher: spec_fn(K) -> u64) -> bool {
        forall|i: int|
            0 <= i < self.entries().len() ==> (#[trigger] self.entries()[i]).hash == hasher(
                self.entries()[i].key,
            )
    }

    /// Whether this cache holds nothing that `before` did not hold, and
    /// holds what it holds with the value that it had there.
    pub open spec fn within(self, before: Self) -> bool {
        forall|hash: u64, key: K| #[trigger]
            self.holds(hash, key) ==> before.holds(hash, key) && self.value_of(hash, key)
                == before.value_of(hash, key)
    }

    /// Whether this cache holds nothing that `before` did not hold, and
    /// holds what it holds with the value that it had there, but for what is
    /// filed under `hash` for `key`.
    pub open spec fn within_but(self, before: Self, hash: u64, key: K) -> bool {
        forall|h: u64, k: K| #[trigger]
            self.holds(h, k) && !(h == hash && k == key) ==> before.holds(h, k) && self.value_of(
                h,
                k,
            ) == before.value_of(h, k)
    }

    /// The state after a hit on `hash` and `key`: the entry's counter goes up,
    /// nothing moves.
    pub open spec fn touch(self, hash: u64, key: K) -> Self {
        CacheView {
            small: self.small.map_values(
                |b: Bucket<K, V>|
                    if b.is(hash, key) {
                        b.warmed()
                    } else {
                        b
                    },
            ),
            main: self.main.map_values(
                |b: Bucket<K, V>|
                    if b.is(hash, key) {
                        b.warmed()
                    } else {
                        b
                    },
            ),
            ..self
        }
    }

    /// The state after the value under `hash` and `key` is replaced: the
    /// entry keeps its place and its counter.
    pub open spec fn overwrite(self, hash: u64, key: K, value: V) -> Self {
        CacheView {
            small: self.small.map_values(
                |b: Bucket<K, V>|
                    if b.is(hash, key) {
                        b.with_value(value)
                    } else {
                        b
                    },
            ),
            main: self.main.map_values(
                |b: Bucket<K, V>|
                    if b.is(hash, key) {
                        b.with_value(value)
                    } else {
                        b
                    },
            ),
            ..self
        }
    }

    /// The state after `put`. A key that is present has its value replaced.
    /// A new key whose hash the ghost queue remembers enters the main queue;
    /// any other new key enters the small queue, or, where the small queue
    /// may hold nothing, is dropped at once with its hash offered to the
    /// ghost queue.
    pub open spec fn put(self, hash: u64, key: K, value: V) -> Self {
        let fresh = Bucket { key, value, freq: 0, hash };
        if self.holds(hash, key) {
            self.overwrite(hash, key, value)
        } else if self.ghosts.contains(hash) {
            self.main_room().admit_main(fresh)
        } else if self.small_cap() == 0 {
            CacheView { ghosts: ghost_insert(self.ghosts, self.ghost_cap(), hash), ..self }
        } else {
            self.small_room().admit_small(fresh)
        }
    }

    /// The state after a bucket joined the small queue at its tail.
    pub open spec fn admit_small(self, bucket: Bucket<K, V>) -> Self {
        CacheView { small: self.small.push(bucket), ..self }
    }

    /// The state after a bucket joined the main queue at its tail.
    pub open spec fn admit_main(self, bucket: Bucket<K, V>) -> Self {
        CacheView { main: self.main.push(bucket), ..self }
    }

    /// The state once the small queue has room for one more entry.
    pub open spec fn small_room(self) -> Self {
        if self.small.len() >= self.small_cap() {
            self.evict_small()
        } else {
            self
        }
    }

    /// The state once the main queue has room for one more entry.
    pub open spec fn main_room(self) -> Self {
        if self.main.len() >= self.main_cap() {
            self.evict_main()
        } else {
            self
        }
    }

    /// The state after one eviction from the small queue. Heads whose
    /// counter, lowered by one, is still above 0 move to the main queue's
    /// tail with the counter so lowered, the main queue making room where it
    /// is full. The first head whose counter is not is dropped and its hash
    /// offered to the ghost queue; where there is no such head the small
    /// queue ends up empty.
    pub open spec fn evict_small(self) -> Self
        decreases self.small.len(),
    {
        if self.small.len() == 0 {
            self
        } else if self.small[0].cooled().freq > 0 {
            self.main_room().promote().evict_small()
        } else {
            self.drop_small()
        }
    }

    /// The state after one eviction from the main queue.
    pub open spec fn evict_main(self) -> Self {
        CacheView { main: evict_main_queue(self.main), ..self }
    }

    /// The state after the small queue's head moved to the main queue's
    /// tail, cooled.
    pub open spec fn promote(self) -> Self {
        CacheView {
            small: self.small.drop_first(),
            main: self.main.push(self.small[0].cooled()),
            ..self
        }
    }

    /// The state after the small queue's head was dropped and its hash
    /// offered to the ghost queue.
    pub open spec fn drop_small(self) -> Self {
        CacheView {
            small: self.small.drop_first(),
            ghosts: ghost_insert(self.ghosts, self.ghost_cap(), self.small[0].hash),
            ..self
        }
    }

    /// The state after the main queue's head went back to its tail, cooled.
    pub open spec fn recycle_main(self) -> Self {
        CacheView { main: self.main.drop_first().push(self.main[0].cooled()), ..self }
    }

    /// The state after the main queue's head was dropped.
    pub open spec fn drop_main(self) -> Self {
        CacheView { main: self.main.drop_first(), ..self }
    }

    /// The number of heads that one eviction from the small queue examines
    /// in both queues: its own, and those of the evictions from the main
    /// queue that it calls for.
    pub open spec fn evict_small_work(self) -> nat
        decreases self.small.len(),
    {
        if self.small.len() == 0 {
            0
        } else if self.small[0].cooled().freq > 0 {
            let within: nat = if self.main.len() >= self.main_cap() {
                evict_main_steps(self.main)
            } else {
                0
            };
            within + 1 + self.main_room().promote().evict_small_work()
        } else {
            1
        }
    }

    /// The number of heads of the small queue that one eviction from it
    /// examines.
    pub open spec fn evict_small_steps(self) -> nat
        decreases self.small.len(),
    {
        if self.small.len() == 0 {
            0
        } else if self.small[0].cooled().freq > 0 {
            1 + self.main_room().promote().evict_small_steps()
        } else {
            1
        }
    }
}

/// Whether one of the entries is filed under `hash` for `key`.
pub open spec fn files<K, V>(entries: Seq<Bucket<K, V>>, hash: u64, key: K) -> bool {
    exists|i: int| 0 <= i < entries.len() && #[trigger] entries[i].is(hash, key)
}

/// No two entries are filed under the same hash for the same key.
pub open spec fn distinct<K, V>(entries: Seq<Bucket<K, V>>) -> bool {
    forall|i: int, j: int|
        0 <= i < entries.len() && 0 <= j < entries.len() && i != j ==> !(#[trigger] entries[i]).is(
            (#[trigger] entries[j]).hash,
            entries[j].key,
        )
}

/// Every frequency counter is within its ceiling.
pub open spec fn tempered<K, V>(entries: Seq<Bucket<K, V>>) -> bool {
    forall|i: int| 0 <= i < entries.len() ==> (#[trigger] entries[i]).freq <= MAX_FREQ
}

/// The ghost queue after `hash` is offered to it: unchanged where the hash is
/// already there or the queue may hold nothing; otherwise the hash joins at
/// the tail, and the head leaves first where the queue is full.
pub open spec fn ghost_insert(ghost: Seq<u64>, cap: nat, hash: u64) -> Seq<u64> {
    if cap == 0 || ghost.contains(hash) {
        ghost
    } else if ghost.len() >= cap {
        ghost.drop_first().push(hash)
    } else {
        ghost.push(hash)
    }
}

/// The main queue after one eviction: heads whose counter, lowered by one, is
/// still above 0 go back to the tail with the counter so lowered; the first
/// head whose counter is not leaves.
pub open spec fn evict_main_queue<K, V>(main: Seq<Bucket<K, V>>) -> Seq<Bucket<K, V>>
    decreases heat(main),
    via evict_main_queue_decreases::<K, V>
{
    if main.len() == 0 {
        main
    } else if main[0].cooled().freq > 0 {
        evict_main_queue(main.drop_first().push(main[0].cooled()))
    } else {
        main.drop_first()
    }
}

/// The number of heads that one eviction from the main queue examines.
pub open spec fn evict_main_steps<K, V>(main: Seq<Bucket<K, V>>) -> nat
    decreases heat(main),
    via evict_main_steps_decreases::<K, V>
{
    if main.len() == 0 {
        0
    } else if main[0].cooled().freq > 0 {
        1 + evict_main_steps(main.drop_first().push(main[0].cooled()))
    } else {
        1
    }
}

/// The sum of the frequency counters of a queue.
pub open spec fn heat<K, V>(queue: Seq<Bucket<K, V>>) -> nat
    decreases queue.len(),
{
    if queue.len() == 0 {
        0
    } else {
        heat(queue.drop_last()) + queue.last().freq as nat
    }
}

#[via_fn]
proof fn evict_main_queue_decreases<K, V>(main: Seq<Bucket<K, V>>) {
    if main.len() != 0 && main[0].cooled().freq > 0 {
        lemma_heat_recycle(main);
    }
}

#[via_fn]
proof fn evict_main_steps_decreases<K, V>(main: Seq<Bucket<K, V>>) {
    if main.len() != 0 && main[0].cooled().freq > 0 {
        lemma_heat_recycle(main);
    }
}

/// Taking the head off a queue lowers its heat by the head's counter.
pub proof fn lemma_heat_drop_first<K, V>(queue: Seq<Bucket<K, V>>)
    requires
        queue.len() > 0,
    ensures
        heat(queue.drop_first()) + queue[0].freq == heat(queue),
    decreases queue.len(),
{
    if queue.len() == 1 {
        assert(queue.drop_first() =~= queue.drop_last());
        assert(heat(queue.drop_last()) == 0);
    } else {
        lemma_heat_drop_first(queue.drop_last());
        assert(queue.drop_last().drop_first() =~= queue.drop_first().drop_last());
        assert(queue.drop_first().last() == queue.last());
        assert(queue.drop_last()[0] == queue[0]);
    }
}

/// Adding a bucket at the tail raises the heat by its counter.
pub proof fn lemma_heat_push<K, V>(queue: Seq<Bucket<K, V>>, bucket: Bucket<K, V>)
    ensures
        heat(queue.push(bucket)) == heat(queue) + bucket.freq,
{
    assert(queue.push(bucket).drop_last() =~= queue);
}

/// Sending a head with a counter above 0 back to the tail, cooled, lowers the
/// heat by one.
pub proof fn lemma_heat_recycle<K, V>(queue: Seq<Bucket<K, V>>)
    requires
        queue.len() > 0,
        queue[0].freq > 0,
    ensures
        heat(queue.drop_first().push(queue[0].cooled())) + 1 == heat(queue),
{
    lemma_heat_drop_first(queue);
    lemma_heat_push(queue.drop_first(), queue[0].cooled());
}

} // verus!
