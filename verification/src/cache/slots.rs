//! How the slots of the arena, the positions of the queues and the entries
//! of the cache's state answer to each other.

use vstd::prelude::*;
use std::fmt::Debug;
use std::hash::{BuildHasher, Hash};
use crate::cache::S3FIFO;
use crate::table::table_items;

verus! {

impl<K, V, S> S3FIFO<K, V, S> where K: Eq + Hash + Debug, S: BuildHasher {
    /// What holds of a slot of the small queue.
    pub(super) open spec fn small_slot(&self, s: u64) -> bool {
        &&& self.small_fifo@.contains(s)
        &&& !self.main_fifo@.contains(s)
        &&& !self.free@.contains(s)
        &&& self.live(s)
        &&& s < self.slots@.len()
        &&& self.slots@[s as int] is Some
    }

    /// What holds of a slot of the main queue.
    pub(super) open spec fn main_slot(&self, s: u64) -> bool {
        &&& self.main_fifo@.contains(s)
        &&& !self.small_fifo@.contains(s)
        &&& !self.free@.contains(s)
        &&& self.live(s)
        &&& s < self.slots@.len()
        &&& self.slots@[s as int] is Some
    }

    /// What holds of a slot of the free list.
    pub(super) open spec fn free_slot(&self, s: u64) -> bool {
        &&& self.free@.contains(s)
        &&& !self.small_fifo@.contains(s)
        &&& !self.main_fifo@.contains(s)
        &&& !self.live(s)
        &&& s < self.slots@.len()
    }

    /// The slots of the lists, position by position: each is within the
    /// arena and in no other list, and those of the queues hold buckets.
    pub(super) proof fn lemma_queue_slots(&self)
        requires
            self.arena_wf(),
        ensures
            forall|i: int|
                0 <= i < self.small_fifo@.len() ==> self.small_slot(#[trigger] self.small_fifo@[i]),
            forall|i: int|
                0 <= i < self.main_fifo@.len() ==> self.main_slot(#[trigger] self.main_fifo@[i]),
            forall|i: int| 0 <= i < self.free@.len() ==> self.free_slot(#[trigger] self.free@[i]),
    {
        assert forall|i: int| 0 <= i < self.small_fifo@.len() implies self.small_slot(
            #[trigger] self.small_fifo@[i],
        ) by {
            let s: u64 = self.small_fifo@[i];
            assert(self.small_fifo@.contains(s));
            assert(!self.main_fifo@.contains(s));
            assert(!self.free@.contains(s));
            assert(self.live(s));
            assert(s < self.slots@.len());
            assert(self.slots@[s as int] is Some);
        }
        assert forall|i: int| 0 <= i < self.main_fifo@.len() implies self.main_slot(
            #[trigger] self.main_fifo@[i],
        ) by {
            let s: u64 = self.main_fifo@[i];
            assert(self.main_fifo@.contains(s));
            if self.small_fifo@.contains(s) {
                assert(!self.main_fifo@.contains(s));
            }
            assert(!self.free@.contains(s));
            assert(self.live(s));
            assert(s < self.slots@.len());
            assert(self.slots@[s as int] is Some);
        }
        assert forall|i: int| 0 <= i < self.free@.len() implies self.free_slot(
            #[trigger] self.free@[i],
        ) by {
            let s: u64 = self.free@[i];
            assert(self.free@.contains(s));
            if self.small_fifo@.contains(s) {
                assert(!self.free@.contains(s));
            }
            if self.main_fifo@.contains(s) {
                assert(!self.free@.contains(s));
            }
            assert(!self.live(s));
            assert(s < self.slots@.len());
        }
    }

    /// The slot that stands at a position of the two queues taken together.
    pub(super) open spec fn slot_of(&self, i: int) -> u64 {
        if i < self.small_fifo@.len() {
            self.small_fifo@[i]
        } else {
            self.main_fifo@[i - self.small_fifo@.len()]
        }
    }

    /// The position, in the two queues taken together, of a slot that is in
    /// one of them.
    pub(super) open spec fn position(&self, slot: u64) -> int {
        if self.small_fifo@.contains(slot) {
            self.small_fifo@.index_of(slot)
        } else {
            self.small_fifo@.len() + self.main_fifo@.index_of(slot)
        }
    }

    /// A slot of the queues stands at its position, and so does its bucket.
    pub(super) proof fn lemma_position(&self, slot: u64)
        requires
            self.arena_wf(),
            self.live(slot),
        ensures
            0 <= self.position(slot) < self@.entries().len(),
            self.slot_of(self.position(slot)) == slot,
            self@.entries()[self.position(slot)] == self.slots@[slot as int]->0,
    {
    }

    /// At every position of the queues stands a slot of the queues, with its
    /// bucket.
    pub(super) proof fn lemma_slot_of(&self, i: int)
        requires
            self.arena_wf(),
            0 <= i < self@.entries().len(),
        ensures
            self.live(self.slot_of(i)),
            self.position(self.slot_of(i)) == i,
            self@.entries()[i] == self.slots@[self.slot_of(i) as int]->0,
    {
    }

    /// No two slots of the queues hold buckets filed under the same hash for
    /// the same key.
    pub(super) proof fn lemma_slot_identity(&self, s: u64, t: u64)
        requires
            self.wf(),
            self.live(s),
            self.live(t),
            s != t,
        ensures
            !self.slots@[s as int]->0.is(self.slots@[t as int]->0.hash, self.slots@[t as int]->0.key),
    {
        self.lemma_position(s);
        self.lemma_position(t);
    }

    /// The bucket in a slot of the queues is the entry filed under its hash
    /// for its key.
    pub(super) proof fn lemma_entry_of_slot(&self, s: u64, hash: u64, key: K)
        requires
            self.wf(),
            self.live(s),
            self.slots@[s as int]->0.is(hash, key),
        ensures
            self@.holds(hash, key),
            self@.entry(hash, key) == self.slots@[s as int]->0,
    {
        self.lemma_position(s);
        let j: int = choose|j: int|
            0 <= j < self@.entries().len() && #[trigger] self@.entries()[j].is(hash, key);
        self.lemma_slot_of(j);
        if self.slot_of(j) != s {
            self.lemma_slot_identity(self.slot_of(j), s);
        }
    }

    /// Where nothing is filed under `hash` for `key`, no entry of either
    /// queue is.
    pub(super) proof fn lemma_miss(&self, hash: u64, key: K)
        requires
            !self@.holds(hash, key),
        ensures
            forall|i: int| 0 <= i < self@.small.len() ==> !(#[trigger] self@.small[i]).is(hash, key),
            forall|i: int| 0 <= i < self@.main.len() ==> !(#[trigger] self@.main[i]).is(hash, key),
    {
        assert forall|i: int| 0 <= i < self@.small.len() implies !(#[trigger] self@.small[i]).is(
            hash,
            key,
        ) by {
            assert(self@.entries()[i] == self@.small[i]);
        }
        assert forall|i: int| 0 <= i < self@.main.len() implies !(#[trigger] self@.main[i]).is(
            hash,
            key,
        ) by {
            assert(self@.entries()[i + self@.small.len()] == self@.main[i]);
        }
    }

    /// Whether `after` is `self` with another value in one slot and nothing
    /// else changed.
    pub(super) open spec fn rewritten(&self, after: Self, s: u64) -> bool {
        &&& after.slots@.len() == self.slots@.len()
        &&& forall|t: int| 0 <= t < self.slots@.len() && t != s ==> after.slots@[t] == self.slots@[t]
        &&& after.slots@[s as int] == Some(
            self.slots@[s as int]->0.with_value(after.slots@[s as int]->0.value),
        )
        &&& after.capacity == self.capacity
        &&& after.free@ == self.free@
        &&& after.small_fifo@ == self.small_fifo@
        &&& after.main_fifo@ == self.main_fifo@
        &&& after.ghost_fifo == self.ghost_fifo
        &&& after.table == self.table
    }

    /// Whatever value is written into a slot of the queues, the cache stays
    /// in order, and its state is the one in which that value replaced the
    /// entry's.
    pub(super) proof fn lemma_rewritten(&self, s: u64, hash: u64, key: K)
        requires
            self.wf(),
            self.live(s),
            self.slots@[s as int]->0.is(hash, key),
        ensures
            forall|after: Self| self.rewritten(after, s) ==> #[trigger] after.wf(),
            forall|after: Self|
                self.rewritten(after, s) ==> #[trigger] after.view() == self@.overwrite(
                    hash,
                    key,
                    after.slots@[s as int]->0.value,
                ),
    {
        assert forall|after: Self| self.rewritten(after, s) implies #[trigger] after.wf() by {
            self.lemma_rewritten_one(after, s, hash, key);
        }
        assert forall|after: Self| self.rewritten(after, s) implies #[trigger] after.view()
            == self@.overwrite(hash, key, after.slots@[s as int]->0.value) by {
            self.lemma_rewritten_one(after, s, hash, key);
        }
    }

    /// A cache with another value in one slot of the queues is in order, and
    /// its state is the one in which that value replaced the entry's.
    pub(super) proof fn lemma_rewritten_one(&self, after: Self, s: u64, hash: u64, key: K)
        requires
            self.wf(),
            self.live(s),
            self.slots@[s as int]->0.is(hash, key),
            self.rewritten(after, s),
        ensures
            after.wf(),
            after@ == self@.overwrite(hash, key, after.slots@[s as int]->0.value),
    {
        let value = after.slots@[s as int]->0.value;
        Self::lemma_amend(*self, after, s, hash, key);
        self@.lemma_overwrite(hash, key, value);
        let target = self@.overwrite(hash, key, value);
        assert(after@.small =~= target.small);
        assert(after@.main =~= target.main);
    }

    /// What follows when the bucket in one slot of the queues is replaced by
    /// one filed under the same hash for the same key, and nothing else
    /// changes.
    pub(super) proof fn lemma_amend(before: Self, after: Self, s: u64, hash: u64, key: K)
        requires
            before.wf(),
            before.live(s),
            before.slots@[s as int]->0.is(hash, key),
            after.slots@ =~= before.slots@.update(s as int, after.slots@[s as int]),
            after.slots@[s as int] is Some,
            after.slots@[s as int]->0.is(hash, key),
            after.capacity == before.capacity,
            after.free@ == before.free@,
            after.small_fifo@ == before.small_fifo@,
            after.main_fifo@ == before.main_fifo@,
            after.ghost_fifo == before.ghost_fifo,
            after.table == before.table,
        ensures
            after.arena_wf(),
            after.index_wf(),
            after@.small.len() == before@.small.len(),
            after@.main.len() == before@.main.len(),
            forall|i: int|
                0 <= i < before@.small.len() ==> #[trigger] after@.small[i] == if before@.small[i].is(
                    hash,
                    key,
                ) {
                    after.slots@[s as int]->0
                } else {
                    before@.small[i]
                },
            forall|i: int|
                0 <= i < before@.main.len() ==> #[trigger] after@.main[i] == if before@.main[i].is(
                    hash,
                    key,
                ) {
                    after.slots@[s as int]->0
                } else {
                    before@.main[i]
                },
            forall|i: int|
                0 <= i < before@.small.len() && (#[trigger] before@.small[i]).is(hash, key)
                    ==> before@.small[i] == before.slots@[s as int]->0,
            forall|i: int|
                0 <= i < before@.main.len() && (#[trigger] before@.main[i]).is(hash, key)
                    ==> before@.main[i] == before.slots@[s as int]->0,
    {
        assert forall|i: int|
            0 <= i < before@.small.len() && (#[trigger] before@.small[i]).is(
                hash,
                key,
            ) implies before@.small[i] == before.slots@[s as int]->0 by {
            let t: u64 = before.small_fifo@[i];
            assert(before.live(t));
            if t != s {
                before.lemma_slot_identity(t, s);
            }
        }
        assert forall|i: int|
            0 <= i < before@.main.len() && (#[trigger] before@.main[i]).is(
                hash,
                key,
            ) implies before@.main[i] == before.slots@[s as int]->0 by {
            let t: u64 = before.main_fifo@[i];
            assert(before.live(t));
            if t != s {
                before.lemma_slot_identity(t, s);
            }
        }
        assert forall|t: u64| #[trigger] after.live(t) implies t < after.slots@.len()
            && after.slots@[t as int] is Some by {
            assert(before.live(t));
        }
        assert forall|h: u64, t: u64| #[trigger]
            table_items(after.table).count((h, t)) == if after.live(t) && after.slots@[t as int]->0.hash
                == h {
                1nat
            } else {
                0nat
            } by {
            assert(after.live(t) == before.live(t));
        }
        assert forall|i: int| 0 <= i < before@.small.len() implies #[trigger] after@.small[i]
            == if before@.small[i].is(hash, key) {
            after.slots@[s as int]->0
        } else {
            before@.small[i]
        } by {
            let t: u64 = before.small_fifo@[i];
            assert(before.live(t));
            if t != s {
                before.lemma_slot_identity(t, s);
            }
        }
        assert forall|i: int| 0 <= i < before@.main.len() implies #[trigger] after@.main[i]
            == if before@.main[i].is(hash, key) {
            after.slots@[s as int]->0
        } else {
            before@.main[i]
        } by {
            let t: u64 = before.main_fifo@[i];
            assert(before.live(t));
            if t != s {
                before.lemma_slot_identity(t, s);
            }
        }
    }
}

} // verus!
