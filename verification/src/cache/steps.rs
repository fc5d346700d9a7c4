//! Eviction and admission, step by step: each step takes a well-formed cache
//! to a well-formed cache, and the state of the one is a function of the
//! state of the other.

use vstd::prelude::*;
use vstd::laws_eq::obeys_concrete_eq;
use std::fmt::Debug;
use std::hash::{BuildHasher, Hash};
use crate::bucket::{Bucket, MAX_FREQ};
use crate::cache::{S3FIFO, MAX_CAPACITY};
use crate::filing::unfile;
use crate::model::evict_main_steps;
use crate::seqs::{lemma_append, lemma_behead, lemma_curtail, lemma_requeue};
use crate::table::{table_find, table_insert_unique, table_items};

verus! {

impl<K, V, S> S3FIFO<K, V, S> where K: Eq + Hash + Debug, S: BuildHasher {
    /// The slot of the bucket filed under `hash` for `key`.
    pub(super) fn find_slot(&self, hash: u64, key: &K) -> (found: Option<u64>)
        requires
            self.wf(),
        ensures
            match found {
                Some(s) => self.live(s) && self.slots@[s as int]->0.is(hash, *key),
                None => !self@.holds(hash, *key),
            },
    {
        let slots = &self.slots;
        let eq = |probe: &u64| -> (same: bool)
            requires
                *probe < slots.len(),
                slots@[*probe as int] is Some,
                obeys_concrete_eq::<K>(),
            ensures
                same == slots@[*probe as int]->0.is(hash, *key),
            {
                proof {
                    reveal(obeys_concrete_eq);
                }
                match &slots[*probe as usize] {
                    Some(bucket) => bucket.hash == hash && bucket.key == *key,
                    None => unreached(),
                }
            };
        let found = table_find(&self.table, hash, eq);
        proof {
            match found {
                Some(s) => {
                    let h: u64 = choose|h: u64| #[trigger] table_items(self.table).count((h, s)) > 0;
                    assert(table_items(self.table).count((h, s)) > 0);
                },
                None => {
                    if self@.holds(hash, *key) {
                        let i: int = choose|i: int|
                            0 <= i < self@.entries().len() && #[trigger] self@.entries()[i].is(
                                hash,
                                *key,
                            );
                        let s: u64 = self.slot_of(i);
                        assert(table_items(self.table).count((hash, s)) == 1);
                    }
                },
            }
        }
        found
    }

    /// Frees one place in the small queue: heads that are still warm when
    /// cooled move to the main queue, the main queue making room where it is
    /// full, until a head that is not is dropped, with its hash offered to
    /// the ghost queue, or the small queue is empty.
    pub(super) fn evict_small(&mut self)
        requires
            old(self).wf(),
        ensures
            final(self).wf(),
            final(self)@ == old(self)@.evict_small(),
    {
        loop
            invariant
                self.wf(),
                self@.evict_small() == old(self)@.evict_small(),
            decreases self@.evict_small_steps(),
        {
            if self.small_fifo.len() == 0 {
                return ;
            }
            let s: u64 = self.small_fifo[0];
            proof {
                self.lemma_queue_slots();
            }
            assert(self.small_slot(s));
            assert(s < self.slots.len());
            let freq: u8 = match &self.slots[s as usize] {
                Some(bucket) => bucket.freq,
                None => unreached(),
            };
            assert(freq == self@.small[0].freq);
            if freq.saturating_sub(1) > 0 {
                proof {
                    self@.lemma_caps();
                    self@.lemma_main_room();
                }
                if self.main_fifo.len() >= self.main_capacity() {
                    self.evict_main();
                }
                self.promote_small_head();
            } else {
                self.drop_small_head();
                return ;
            }
        }
    }

    /// Frees one place in the main queue: heads that are still warm when
    /// cooled go back to the tail, until a head that is not is dropped.
    pub(super) fn evict_main(&mut self)
        requires
            old(self).wf(),
        ensures
            final(self).wf(),
            final(self)@ == old(self)@.evict_main(),
    {
        loop
            invariant
                self.wf(),
                self@.evict_main() == old(self)@.evict_main(),
            decreases evict_main_steps(self@.main),
        {
            if self.main_fifo.len() == 0 {
                return ;
            }
            let s: u64 = self.main_fifo[0];
            proof {
                self.lemma_queue_slots();
            }
            assert(self.main_slot(s));
            assert(s < self.slots.len());
            let freq: u8 = match &self.slots[s as usize] {
                Some(bucket) => bucket.freq,
                None => unreached(),
            };
            assert(freq == self@.main[0].freq);
            if freq.saturating_sub(1) > 0 {
                self.recycle_main_head();
            } else {
                self.drop_main_head();
                return ;
            }
        }
    }

    /// Moves the small queue's head to the main queue's tail, cooled. The
    /// bucket stays in its slot, so the index needs no change.
    pub(super) fn promote_small_head(&mut self)
        requires
            old(self).wf(),
            old(self)@.small.len() > 0,
            old(self)@.main.len() < old(self)@.main_cap(),
        ensures
            final(self).wf(),
            final(self)@ == old(self)@.promote(),
    {
        let s: u64 = match self.small_fifo.pop_front() {
            Some(s) => s,
            None => unreached(),
        };
        proof {
            old(self).lemma_queue_slots();
            assert(old(self).small_fifo@[0] == s);
        }
        assert(old(self).small_slot(s));
        assert(s < self.slots.len());
        match &mut self.slots[s as usize] {
            Some(bucket) => {
                bucket.decr_freq();
            },
            None => unreached(),
        }
        self.main_fifo.push_back(s);
        proof {
            let before = *old(self);
            lemma_behead(before.small_fifo@);
            lemma_append(before.main_fifo@, s);
            before@.lemma_promote();
            assert forall|t: u64| #[trigger] self.live(t) == before.live(t) by {}
            assert forall|i: int| 0 <= i < before@.small.len() - 1 implies self@.small[i]
                == before@.promote().small[i] by {
                assert(self.small_fifo@[i] == before.small_fifo@[i + 1]);
            }
            assert forall|i: int| 0 <= i < before@.main.len() implies self@.main[i]
                == before@.promote().main[i] by {}
            assert(self@.small =~= before@.promote().small);
            assert(self@.main =~= before@.promote().main);
        }
    }

    /// Drops the small queue's head: the bucket leaves its slot and the
    /// index, and its hash is offered to the ghost queue.
    pub(super) fn drop_small_head(&mut self)
        requires
            old(self).wf(),
            old(self)@.small.len() > 0,
        ensures
            final(self).wf(),
            final(self)@ == old(self)@.drop_small(),
    {
        let s: u64 = match self.small_fifo.pop_front() {
            Some(s) => s,
            None => unreached(),
        };
        proof {
            old(self).lemma_queue_slots();
            assert(old(self).small_fifo@[0] == s);
        }
        assert(old(self).small_slot(s));
        assert(s < self.slots.len());
        let bucket = match self.slots[s as usize].take() {
            Some(bucket) => bucket,
            None => unreached(),
        };
        self.ghost_fifo.insert(bucket.hash);
        unfile(&mut self.table, bucket.hash, s);
        self.free.push(s);
        proof {
            let before = *old(self);
            lemma_behead(before.small_fifo@);
            lemma_append(before.free@, s);
            before@.lemma_drop_small();
            assert forall|t: u64| #[trigger] self.live(t) == (before.live(t) && t != s) by {}
            assert forall|i: int| 0 <= i < before@.small.len() - 1 implies self@.small[i]
                == before@.drop_small().small[i] by {
                assert(self.small_fifo@[i] == before.small_fifo@[i + 1]);
            }
            assert forall|i: int| 0 <= i < before@.main.len() implies self@.main[i]
                == before@.drop_small().main[i] by {}
            assert(self@.small =~= before@.drop_small().small);
            assert(self@.main =~= before@.drop_small().main);
        }
    }

    /// Sends the main queue's head back to its tail, cooled. The bucket
    /// stays in its slot, so the index needs no change.
    pub(super) fn recycle_main_head(&mut self)
        requires
            old(self).wf(),
            old(self)@.main.len() > 0,
        ensures
            final(self).wf(),
            final(self)@ == old(self)@.recycle_main(),
    {
        let s: u64 = match self.main_fifo.pop_front() {
            Some(s) => s,
            None => unreached(),
        };
        proof {
            old(self).lemma_queue_slots();
            assert(old(self).main_fifo@[0] == s);
        }
        assert(old(self).main_slot(s));
        assert(s < self.slots.len());
        match &mut self.slots[s as usize] {
            Some(bucket) => {
                bucket.decr_freq();
            },
            None => unreached(),
        }
        self.main_fifo.push_back(s);
        proof {
            let before = *old(self);
            lemma_requeue(before.main_fifo@);
            before@.lemma_recycle_main();
            assert forall|t: u64| #[trigger] self.live(t) == before.live(t) by {}
            assert forall|i: int| 0 <= i < before@.small.len() implies self@.small[i]
                == before@.small[i] by {
                assert(before.small_slot(before.small_fifo@[i]));
            }
            assert forall|i: int| 0 <= i < before@.main.len() implies self@.main[i]
                == before@.recycle_main().main[i] by {
                if i < before@.main.len() - 1 {
                    assert(self.main_fifo@[i] == before.main_fifo@[i + 1]);
                    assert(before.main_slot(before.main_fifo@[i + 1]));
                }
            }
            assert(self@.small =~= before@.recycle_main().small);
            assert(self@.main =~= before@.recycle_main().main);
        }
    }

    /// Drops the main queue's head: the bucket leaves its slot and the index.
    pub(super) fn drop_main_head(&mut self)
        requires
            old(self).wf(),
            old(self)@.main.len() > 0,
        ensures
            final(self).wf(),
            final(self)@ == old(self)@.drop_main(),
    {
        let s: u64 = match self.main_fifo.pop_front() {
            Some(s) => s,
            None => unreached(),
        };
        proof {
            old(self).lemma_queue_slots();
            assert(old(self).main_fifo@[0] == s);
        }
        assert(old(self).main_slot(s));
        assert(s < self.slots.len());
        let bucket = match self.slots[s as usize].take() {
            Some(bucket) => bucket,
            None => unreached(),
        };
        unfile(&mut self.table, bucket.hash, s);
        self.free.push(s);
        proof {
            let before = *old(self);
            lemma_behead(before.main_fifo@);
            lemma_append(before.free@, s);
            before@.lemma_drop_main();
            assert forall|t: u64| #[trigger] self.live(t) == (before.live(t) && t != s) by {}
            assert forall|i: int| 0 <= i < before@.small.len() implies self@.small[i]
                == before@.small[i] by {}
            assert forall|i: int| 0 <= i < before@.main.len() - 1 implies self@.main[i]
                == before@.drop_main().main[i] by {
                assert(self.main_fifo@[i] == before.main_fifo@[i + 1]);
            }
            assert(self@.small =~= before@.drop_main().small);
            assert(self@.main =~= before@.drop_main().main);
        }
    }

    /// Puts a bucket that is filed under a hash and key of its own into a
    /// vacant slot, at the tail of the main queue or of the small queue, and
    /// into the index.
    pub(super) fn install(&mut self, bucket: Bucket<K, V>, to_main: bool)
        requires
            old(self).wf(),
            !old(self)@.holds(bucket.hash, bucket.key),
            bucket.freq <= MAX_FREQ,
            to_main ==> old(self)@.main.len() < old(self)@.main_cap(),
            !to_main ==> old(self)@.small.len() < old(self)@.small_cap(),
        ensures
            final(self).wf(),
            final(self)@ == if to_main {
                old(self)@.admit_main(bucket)
            } else {
                old(self)@.admit_small(bucket)
            },
    {
        let hash: u64 = bucket.hash;
        proof {
            old(self).lemma_queue_slots();
            old(self)@.lemma_caps();
            if to_main {
                old(self)@.lemma_admit_main(bucket);
            } else {
                old(self)@.lemma_admit_small(bucket);
            }
        }
        let s: u64 = match self.free.pop() {
            Some(s) => {
                proof {
                    lemma_curtail(old(self).free@);
                }
                assert(old(self).free_slot(s));
                assert(s < self.slots.len());
                self.slots[s as usize] = Some(bucket);
                s
            },
            None => {
                let s: u64 = self.slots.len() as u64;
                self.slots.push(Some(bucket));
                s
            },
        };
        assert(!old(self).live(s));
        if to_main {
            self.main_fifo.push_back(s);
        } else {
            self.small_fifo.push_back(s);
        }
        let ghost items = table_items(self.table);
        proof {
            let before = *old(self);
            if to_main {
                lemma_append(before.main_fifo@, s);
            } else {
                lemma_append(before.small_fifo@, s);
            }
            assert forall|t: u64| #[trigger] self.live(t) == (before.live(t) || t == s) by {}
            assert forall|h: u64, w: u64| #[trigger] items.count((h, w)) > 0 implies w
                < self.slots@.len() && self.slots@[w as int] is Some && self.slots@[w as int]->0.hash
                == h by {
                assert(before.live(w));
            }
        }
        let slots = &self.slots;
        let hasher = |probe: &u64| -> (h: u64)
            requires
                *probe < slots.len(),
                slots@[*probe as int] is Some,
            ensures
                h == slots@[*probe as int]->0.hash,
            {
                match &slots[*probe as usize] {
                    Some(bucket) => bucket.hash,
                    None => unreached(),
                }
            };
        table_insert_unique(&mut self.table, hash, s, hasher);
        proof {
            let before = *old(self);
            let target = if to_main {
                before@.admit_main(bucket)
            } else {
                before@.admit_small(bucket)
            };
            assert forall|i: int| 0 <= i < before@.small.len() implies self@.small[i]
                == before@.small[i] by {
                assert(before.small_slot(before.small_fifo@[i]));
            }
            assert forall|i: int| 0 <= i < before@.main.len() implies self@.main[i]
                == before@.main[i] by {
                assert(before.main_slot(before.main_fifo@[i]));
            }
            assert(self@.small =~= target.small);
            assert(self@.main =~= target.main);
            assert forall|h: u64, w: u64| #[trigger]
                table_items(self.table).count((h, w)) == if self.live(w) && self.slots@[w as int]->0.hash
                    == h {
                    1nat
                } else {
                    0nat
                } by {
                assert(items.count((h, w)) == if before.live(w) && before.slots@[w as int]->0.hash
                    == h {
                    1nat
                } else {
                    0nat
                });
            }
        }
    }

    /// How many entries the small queue may hold.
    pub(super) fn small_capacity(&self) -> (cap: usize)
        requires
            self.capacity <= MAX_CAPACITY,
        ensures
            cap == self@.small_cap(),
    {
        self.capacity / 10
    }

    /// How many entries the main queue may hold.
    pub(super) fn main_capacity(&self) -> (cap: usize)
        requires
            self.capacity <= MAX_CAPACITY,
        ensures
            cap == self@.main_cap(),
    {
        self.capacity * 9 / 10
    }
}

} // verus!
