//! The cache itself: the queues, the index, and the operations on them.
//!
//! Buckets live in an arena of numbered slots and stay in their slot for as
//! long as the cache holds them. The queues are queues of slot numbers, and
//! the index maps a hash to the slot numbers filed under it. Moving an entry
//! from one queue to the other, or from the head of a queue to its tail,
//! moves a number; the bucket and its place in the index stay where they are.

use vstd::prelude::*;
use vstd::laws_eq::obeys_concrete_eq;
use hashbrown::DefaultHashBuilder;
use std::collections::VecDeque;
use std::fmt::Debug;
use std::hash::{BuildHasher, Hash};
use crate::bucket::Bucket;
use crate::ghost::GhostFIFOCache;
use crate::laws::{law_put_leaves_others, law_put_then_get};
use crate::hashing::{default_hash_builder, hash_one};
use crate::model::CacheView;
use crate::table::{table_items, table_len, table_with_capacity, WordTable, TABLE_LIMIT};

mod slots;
mod steps;

verus! {

/// The largest capacity a cache can be configured with: the most that its
/// index is ever asked to hold.
pub const MAX_CAPACITY: usize = TABLE_LIMIT;

/// A non-thread safe `S3FIFO` cache
pub struct S3FIFO<K, V, S = DefaultHashBuilder> {
    hash_builder: S,
    /// The configured capacity
    capacity: usize,
    /// Where the buckets live
    slots: Vec<Option<Bucket<K, V>>>,
    /// The slots that hold no bucket
    free: Vec<u64>,
    /// The slots of the small queue, the head first
    small_fifo: VecDeque<u64>,
    /// The slots of the main queue, the head first
    main_fifo: VecDeque<u64>,
    ghost_fifo: GhostFIFOCache,
    /// The index: the slot of every bucket in either queue, filed under the
    /// bucket's hash
    table: WordTable,
}

impl<K, V, S> View for S3FIFO<K, V, S> {
    type V = CacheView<K, V>;

    closed spec fn view(&self) -> CacheView<K, V> {
        CacheView {
            capacity: self.capacity as nat,
            small: resolve(self.slots@, self.small_fifo@),
            main: resolve(self.slots@, self.main_fifo@),
            ghosts: self.ghost_fifo@,
        }
    }
}

// What a cache is, and when it is well-formed.
impl<K, V, S> S3FIFO<K, V, S> where K: Eq + Hash + Debug, S: BuildHasher {
    /// The cache is in a state that its operations keep up: the queues are
    /// within their bounds and hold no entry twice, and the index agrees with
    /// the queues.
    pub closed spec fn wf(&self) -> bool {
        &&& obeys_concrete_eq::<K>()
        &&& self.capacity <= MAX_CAPACITY
        &&& self.ghost_fifo.wf()
        &&& self.ghost_fifo.spec_capacity() == self@.ghost_cap()
        &&& self@.inv()
        &&& self.arena_wf()
        &&& self.index_wf()
    }

    /// Whether a slot is in one of the two queues.
    spec fn live(&self, slot: u64) -> bool {
        self.small_fifo@.contains(slot) || self.main_fifo@.contains(slot)
    }

    /// Every slot is in exactly one of the small queue, the main queue and
    /// the free list, the slots of the queues hold buckets, and there are no
    /// more slots than the two queues may hold entries.
    spec fn arena_wf(&self) -> bool {
        let small = self.small_fifo@;
        let main = self.main_fifo@;
        let free = self.free@;
        &&& small.no_duplicates()
        &&& main.no_duplicates()
        &&& free.no_duplicates()
        &&& small.len() + main.len() + free.len() == self.slots@.len()
        &&& self.slots@.len() <= self@.small_cap() + self@.main_cap()
        &&& forall|s: u64| #[trigger] small.contains(s) ==> !main.contains(s) && !free.contains(s)
        &&& forall|s: u64| #[trigger] main.contains(s) ==> !free.contains(s)
        &&& forall|s: u64| #[trigger] free.contains(s) ==> s < self.slots@.len()
        &&& forall|s: u64| #[trigger]
            self.live(s) ==> s < self.slots@.len() && self.slots@[s as int] is Some
    }

    /// The index holds the slot of every bucket in either queue once, filed
    /// under the bucket's hash, and nothing else.
    spec fn index_wf(&self) -> bool {
        &&& table_items(self.table).len() == self.small_fifo@.len() + self.main_fifo@.len()
        &&& forall|h: u64, s: u64| #[trigger]
            table_items(self.table).count((h, s)) == if self.live(s) && self.slots@[s as int]->0.hash
                == h {
                1nat
            } else {
                0nat
            }
    }

    /// The number of slots that the index holds.
    pub closed spec fn index_size(&self) -> nat {
        table_items(self.table).len()
    }

    /// Whether the index holds, filed under `hash`, a slot in which `entry`
    /// lives.
    pub closed spec fn index_resolves(&self, hash: u64, entry: Bucket<K, V>) -> bool {
        exists|s: u64| #[trigger]
            table_items(self.table).count((hash, s)) > 0 && s < self.slots@.len()
                && self.slots@[s as int] == Some(entry)
    }

    /// The number of slots that the cache has made so far, in use or free.
    pub closed spec fn arena_size(&self) -> nat {
        self.slots@.len()
    }
}

impl<K, V> S3FIFO<K, V, DefaultHashBuilder> where K: Eq + Hash + Debug {
    /// Create a new `S3FIFO` of the given capacity, with hashbrown's default
    /// hash builder. A tenth of the capacity goes to the small queue and nine
    /// tenths to the main queue, each rounded down.
    pub fn new(cap: usize) -> (cache: Self)
        requires
            cap <= MAX_CAPACITY,
            obeys_concrete_eq::<K>(),
        ensures
            cache.wf(),
            cache@ == CacheView::<K, V>::empty(cap as nat),
    {
        Self::with_hasher(cap, default_hash_builder())
    }
}

// The operations.
impl<K, V, S> S3FIFO<K, V, S> where K: Eq + Hash + Debug, S: BuildHasher {
    /// Create a new empty `S3FIFO` with hash builder. The keys' `==` has to
    /// be equality, and the capacity no more than [`MAX_CAPACITY`].
    pub fn with_hasher(cap: usize, hash_builder: S) -> (cache: Self)
        requires
            cap <= MAX_CAPACITY,
            obeys_concrete_eq::<K>(),
        ensures
            cache.wf(),
            cache@ == CacheView::<K, V>::empty(cap as nat),
    {
        let small_size: usize = cap / 10;
        let main_size: usize = cap * 9 / 10;
        let ghost_size: usize = main_size;
        let cache = S3FIFO {
            hash_builder,
            capacity: cap,
            slots: Vec::new(),
            free: Vec::new(),
            small_fifo: VecDeque::with_capacity(small_size),
            main_fifo: VecDeque::with_capacity(main_size),
            ghost_fifo: GhostFIFOCache::new(ghost_size),
            table: table_with_capacity(cap),
        };
        proof {
            cache.ghost_fifo.lemma_wf();
            assert(cache@.small =~= Seq::empty());
            assert(cache@.main =~= Seq::empty());
            assert(cache@.entries() =~= Seq::empty());
        }
        cache
    }

    /// Get the value with given key. The key is hashed by the cache's hash
    /// builder, and the rest is [`Self::get_hashed`] under that hash.
    pub fn get(&mut self, k: &K) -> (value: Option<&V>)
        requires
            old(self).wf(),
        ensures
            final(self).wf(),
            match value {
                Some(v) => exists|hash: u64|
                    {
                        &&& old(self)@.value_of(hash, *k) == Some(*v)
                        &&& final(self)@ == #[trigger] old(self)@.touch(hash, *k)
                    },
                None => {
                    &&& final(self)@ == old(self)@
                    &&& exists|hash: u64| #[trigger] old(self)@.value_of(hash, *k) is None
                },
            },
            final(self)@.within(old(self)@),
            old(self)@.within(final(self)@),
    {
        let hash: u64 = hash_one(&self.hash_builder, k);
        self.get_hashed(hash, k)
    }

    /// Get the mutable reference with given key. The key is hashed by the
    /// cache's hash builder, and the rest is [`Self::get_mut_hashed`] under
    /// that hash.
    pub fn get_mut(&mut self, k: &K) -> (value: Option<&mut V>)
        requires
            old(self).wf(),
        ensures
            final(self).wf(),
            match value {
                Some(v) => exists|hash: u64|
                    #![trigger old(self)@.touch(hash, *k)]
                    {
                        &&& old(self)@.value_of(hash, *k) == Some(*v)
                        &&& final(self)@ == old(self)@.touch(hash, *k).overwrite(
                            hash,
                            *k,
                            *final(v),
                        )
                        &&& final(self)@.within_but(old(self)@, hash, *k)
                    },
                None => {
                    &&& final(self)@ == old(self)@
                    &&& exists|hash: u64| #[trigger] old(self)@.value_of(hash, *k) is None
                },
            },
    {
        let hash: u64 = hash_one(&self.hash_builder, k);
        self.get_mut_hashed(hash, k)
    }

    /// Put the key-value pair into the cache. If the cache has this key
    /// present the value is updated and `Some(old)` returned. The key is
    /// hashed by the cache's hash builder, and the rest is
    /// [`Self::put_hashed`] under that hash.
    pub fn put(&mut self, k: K, v: V) -> (prior: Option<V>)
        requires
            old(self).wf(),
        ensures
            final(self).wf(),
            exists|hash: u64|
                {
                    &&& final(self)@ == #[trigger] old(self)@.put(hash, k, v)
                    &&& prior == old(self)@.value_of(hash, k)
                    &&& old(self)@.keeps(hash, k) ==> final(self)@.value_of(hash, k) == Some(v)
                    &&& final(self)@.within_but(old(self)@, hash, k)
                },
    {
        let hash: u64 = hash_one(&self.hash_builder, &k);
        self.put_hashed(hash, k, v)
    }

    /// Get the value filed under `hash` for the given key. A hit raises the
    /// entry's frequency counter.
    pub fn get_hashed(&mut self, hash: u64, k: &K) -> (value: Option<&V>)
        requires
            old(self).wf(),
        ensures
            final(self).wf(),
            match value {
                Some(v) => {
                    &&& old(self)@.value_of(hash, *k) == Some(*v)
                    &&& final(self)@ == old(self)@.touch(hash, *k)
                },
                None => {
                    &&& old(self)@.value_of(hash, *k) is None
                    &&& final(self)@ == old(self)@
                },
            },
            final(self)@.within(old(self)@),
            old(self)@.within(final(self)@),
    {
        match self.find_slot(hash, k) {
            Some(s) => {
                proof {
                    self.lemma_entry_of_slot(s, hash, *k);
                }
                assert(s < self.slots.len());
                match &mut self.slots[s as usize] {
                    Some(bucket) => {
                        bucket.incr_freq();
                    },
                    None => unreached(),
                }
                proof {
                    Self::lemma_amend(*old(self), *self, s, hash, *k);
                    old(self)@.lemma_touch(hash, *k);
                    assert(self@.small =~= old(self)@.touch(hash, *k).small);
                    assert(self@.main =~= old(self)@.touch(hash, *k).main);
                }
                match &self.slots[s as usize] {
                    Some(bucket) => Some(&bucket.value),
                    None => unreached(),
                }
            },
            None => None,
        }
    }

    /// Get the mutable reference to the value filed under `hash` for the
    /// given key. A hit raises the entry's frequency counter; what the caller
    /// writes through the reference becomes the entry's value.
    pub fn get_mut_hashed(&mut self, hash: u64, k: &K) -> (value: Option<&mut V>)
        requires
            old(self).wf(),
        ensures
            final(self).wf(),
            match value {
                Some(v) => {
                    &&& old(self)@.value_of(hash, *k) == Some(*v)
                    &&& final(self)@ == old(self)@.touch(hash, *k).overwrite(hash, *k, *final(v))
                },
                None => {
                    &&& old(self)@.value_of(hash, *k) is None
                    &&& final(self)@ == old(self)@
                },
            },
            final(self)@.within_but(old(self)@, hash, *k),
    {
        match self.find_slot(hash, k) {
            Some(s) => {
                proof {
                    self.lemma_entry_of_slot(s, hash, *k);
                }
                assert(s < self.slots.len());
                match &mut self.slots[s as usize] {
                    Some(bucket) => {
                        bucket.incr_freq();
                    },
                    None => unreached(),
                }
                proof {
                    Self::lemma_amend(*old(self), *self, s, hash, *k);
                    old(self)@.lemma_touch(hash, *k);
                    assert(self@.small =~= old(self)@.touch(hash, *k).small);
                    assert(self@.main =~= old(self)@.touch(hash, *k).main);
                    self.lemma_rewritten(s, hash, *k);
                    assert forall|written: V| #[trigger]
                        self@.overwrite(hash, *k, written).within_but(old(self)@, hash, *k) by {
                        self@.lemma_overwrite(hash, *k, written);
                    }
                }
                match &mut self.slots[s as usize] {
                    Some(bucket) => Some(&mut bucket.value),
                    None => unreached(),
                }
            },
            None => None,
        }
    }

    /// Put the key-value pair into the cache under the given hash. If the
    /// cache has this key present under this hash the value is updated and
    /// `Some(old)` returned; the entry keeps its place and its counter.
    /// Otherwise the pair is admitted as a new entry, to the main queue where
    /// the ghost queue remembers the hash and to the small queue where it
    /// does not, each making room first where it is full.
    pub fn put_hashed(&mut self, hash: u64, k: K, v: V) -> (prior: Option<V>)
        requires
            old(self).wf(),
        ensures
            final(self).wf(),
            final(self)@ == old(self)@.put(hash, k, v),
            prior == old(self)@.value_of(hash, k),
            old(self)@.keeps(hash, k) ==> final(self)@.value_of(hash, k) == Some(v),
            final(self)@.within_but(old(self)@, hash, k),
    {
        proof {
            if old(self)@.keeps(hash, k) {
                law_put_then_get(old(self)@, hash, k, v);
            }
            assert forall|h: u64, other: K| #[trigger]
                old(self)@.put(hash, k, v).holds(h, other) && !(h == hash && other == k) implies old(
                self,
            )@.holds(h, other) && old(self)@.put(hash, k, v).value_of(h, other) == old(
                self,
            )@.value_of(h, other) by {
                law_put_leaves_others(old(self)@, hash, k, v, h, other);
            }
        }
        if let Some(s) = self.find_slot(hash, &k) {
            let mut v = v;
            proof {
                self.lemma_entry_of_slot(s, hash, k);
            }
            assert(s < self.slots.len());
            match &mut self.slots[s as usize] {
                Some(bucket) => {
                    core::mem::swap(&mut bucket.value, &mut v);
                },
                None => unreached(),
            }
            proof {
                let value = self.slots@[s as int]->0.value;
                Self::lemma_amend(*old(self), *self, s, hash, k);
                old(self)@.lemma_overwrite(hash, k, value);
                assert(self@.small =~= old(self)@.overwrite(hash, k, value).small);
                assert(self@.main =~= old(self)@.overwrite(hash, k, value).main);
            }
            return Some(v);
        }
        if self.ghost_fifo.contains(hash) {
            proof {
                self.ghost_fifo.lemma_wf();
                self@.lemma_main_room();
            }
            if self.main_fifo.len() >= self.main_capacity() {
                self.evict_main();
            }
            let bucket = Bucket::new(k, v, hash);
            self.install(bucket, true);
        } else {
            if self.small_capacity() == 0 {
                self.ghost_fifo.insert(hash);
                proof {
                    self.ghost_fifo.lemma_wf();
                    assert(self@.entries() == old(self)@.entries());
                    assert forall|t: u64| #[trigger] self.live(t) == old(self).live(t) by {}
                }
                return None;
            }
            proof {
                self@.lemma_small_room();
            }
            if self.small_fifo.len() >= self.small_capacity() {
                self.evict_small();
            }
            let bucket = Bucket::new(k, v, hash);
            self.install(bucket, false);
        }
        None
    }

    /// The number of entries in the two queues together.
    pub fn len(&self) -> (n: usize)
        requires
            self.wf(),
        ensures
            n == self@.small.len() + self@.main.len(),
    {
        self.small_fifo.len() + self.main_fifo.len()
    }

    /// The configured capacity.
    pub fn capacity(&self) -> (cap: usize)
        ensures
            cap == self@.capacity,
    {
        self.capacity
    }
}

// Looking at a cache without touching it.
impl<K, V, S> S3FIFO<K, V, S> where K: Eq + Hash + Debug, S: BuildHasher {
    /// The frequency counter of the entry filed under `hash` for the given
    /// key. Looking at it is no hit.
    pub fn frequency(&self, hash: u64, k: &K) -> (freq: Option<u8>)
        requires
            self.wf(),
        ensures
            freq == if self@.holds(hash, *k) {
                Some(self@.entry(hash, *k).freq)
            } else {
                None
            },
    {
        match self.find_slot(hash, k) {
            Some(s) => {
                proof {
                    self.lemma_entry_of_slot(s, hash, *k);
                }
                assert(s < self.slots.len());
                match &self.slots[s as usize] {
                    Some(bucket) => Some(bucket.freq),
                    None => unreached(),
                }
            },
            None => None,
        }
    }

    /// How far from the head of the small queue the entry filed under `hash`
    /// for the given key stands. Takes time in proportion to the queue.
    pub fn small_position(&self, hash: u64, k: &K) -> (at: Option<usize>)
        requires
            self.wf(),
        ensures
            match at {
                Some(i) => i < self@.small.len() && self@.small[i as int].is(hash, *k),
                None => forall|i: int|
                    0 <= i < self@.small.len() ==> !(#[trigger] self@.small[i]).is(hash, *k),
            },
    {
        match self.find_slot(hash, k) {
            Some(s) => {
                let at = position_of(&self.small_fifo, s);
                proof {
                    self.lemma_queue_slots();
                    if at is None {
                        assert forall|i: int| 0 <= i < self@.small.len() implies !(
                        #[trigger] self@.small[i]).is(hash, *k) by {
                            assert(self.small_slot(self.small_fifo@[i]));
                            self.lemma_slot_identity(self.small_fifo@[i], s);
                        }
                    }
                }
                at
            },
            None => {
                proof {
                    self.lemma_miss(hash, *k);
                }
                None
            },
        }
    }

    /// How far from the head of the main queue the entry filed under `hash`
    /// for the given key stands. Takes time in proportion to the queue.
    pub fn main_position(&self, hash: u64, k: &K) -> (at: Option<usize>)
        requires
            self.wf(),
        ensures
            match at {
                Some(i) => i < self@.main.len() && self@.main[i as int].is(hash, *k),
                None => forall|i: int|
                    0 <= i < self@.main.len() ==> !(#[trigger] self@.main[i]).is(hash, *k),
            },
    {
        match self.find_slot(hash, k) {
            Some(s) => {
                let at = position_of(&self.main_fifo, s);
                proof {
                    self.lemma_queue_slots();
                    if at is None {
                        assert forall|i: int| 0 <= i < self@.main.len() implies !(
                        #[trigger] self@.main[i]).is(hash, *k) by {
                            assert(self.main_slot(self.main_fifo@[i]));
                            self.lemma_slot_identity(self.main_fifo@[i], s);
                        }
                    }
                }
                at
            },
            None => {
                proof {
                    self.lemma_miss(hash, *k);
                }
                None
            },
        }
    }

    /// Whether the ghost queue remembers `hash`.
    pub fn ghost_contains(&self, hash: u64) -> (found: bool)
        requires
            self.wf(),
        ensures
            found == self@.ghosts.contains(hash),
    {
        self.ghost_fifo.contains(hash)
    }

    /// The number of entries in the small queue.
    pub fn small_len(&self) -> (n: usize)
        ensures
            n == self@.small.len(),
    {
        self.small_fifo.len()
    }

    /// The number of entries in the main queue.
    pub fn main_len(&self) -> (n: usize)
        ensures
            n == self@.main.len(),
    {
        self.main_fifo.len()
    }

    /// The number of hashes in the ghost queue.
    pub fn ghost_len(&self) -> (n: usize)
        ensures
            n == self@.ghosts.len(),
    {
        self.ghost_fifo.len()
    }

    /// The number of slots that the index holds: one for each entry of the
    /// two queues.
    pub fn index_len(&self) -> (n: usize)
        requires
            self.wf(),
        ensures
            n == self.index_size(),
            n == self@.small.len() + self@.main.len(),
    {
        table_len(&self.table)
    }
}

// What holds of every well-formed cache.
impl<K, V, S> S3FIFO<K, V, S> where K: Eq + Hash + Debug, S: BuildHasher {
    /// A well-formed cache is in order, and its ghost queue is the one that
    /// its state shows.
    pub proof fn law_in_order(&self)
        requires
            self.wf(),
        ensures
            self@.inv(),
            self@.capacity <= MAX_CAPACITY,
    {
    }

    /// The index holds as many slots as the two queues have entries.
    pub proof fn law_index_size(&self)
        requires
            self.wf(),
        ensures
            self.index_size() == self@.small.len() + self@.main.len(),
    {
    }

    /// Every entry of the two queues is found through the index, under its
    /// own hash.
    pub proof fn law_index_complete(&self, i: int)
        requires
            self.wf(),
            0 <= i < self@.entries().len(),
        ensures
            self.index_resolves(self@.entries()[i].hash, self@.entries()[i]),
    {
        self.lemma_slot_of(i);
        let s: u64 = self.slot_of(i);
        assert(table_items(self.table).count((self@.entries()[i].hash, s)) == 1);
    }

    /// What is found through the index under a hash is an entry of the two
    /// queues that is filed under that hash.
    pub proof fn law_index_sound(&self, hash: u64, entry: Bucket<K, V>)
        requires
            self.wf(),
            self.index_resolves(hash, entry),
        ensures
            entry.hash == hash,
            exists|i: int| 0 <= i < self@.entries().len() && self@.entries()[i] == entry,
    {
        let s: u64 = choose|s: u64| #[trigger]
            table_items(self.table).count((hash, s)) > 0 && s < self.slots@.len()
                && self.slots@[s as int] == Some(entry);
        self.lemma_position(s);
        assert(self@.entries()[self.position(s)] == entry);
    }

    /// The cache never makes more slots than the two queues may hold
    /// entries: what arrives beyond that takes the place of what leaves.
    pub proof fn law_arena_bounded(&self)
        requires
            self.wf(),
        ensures
            self.arena_size() <= self@.small_cap() + self@.main_cap(),
            self.arena_size() <= self@.capacity,
    {
    }
}

/// The buckets that a queue of slot numbers stands for.
pub closed spec fn resolve<K, V>(slots: Seq<Option<Bucket<K, V>>>, queue: Seq<u64>) -> Seq<
    Bucket<K, V>,
> {
    Seq::new(queue.len(), |i: int| slots[queue[i] as int]->0)
}

/// Where in a queue a slot stands.
fn position_of(queue: &VecDeque<u64>, slot: u64) -> (at: Option<usize>)
    ensures
        match at {
            Some(i) => i < queue@.len() && queue@[i as int] == slot,
            None => !queue@.contains(slot),
        },
{
    let mut i: usize = 0;
    while i < queue.len()
        invariant
            i <= queue@.len(),
            forall|j: int| 0 <= j < i ==> queue@[j] != slot,
        decreases queue@.len() - i,
    {
        if queue[i] == slot {
            return Some(i);
        }
        i = i + 1;
    }
    None
}

} // verus!
