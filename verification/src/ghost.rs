//! The ghost queue: a bounded FIFO of hashes, with a table beside it for
//! constant-time membership.

use vstd::prelude::*;
use std::collections::VecDeque;
use crate::filing::unfile;
use crate::model::ghost_insert;
use crate::seqs::{lemma_append, lemma_behead};
use crate::table::{
    table_find, table_insert_unique, table_items, table_with_capacity, WordTable, TABLE_LIMIT,
};

verus! {

/// A ghost FIFO cache that only contains hashes.
pub struct GhostFIFOCache {
    /// Hash table for fast look up: every hash of the queue, filed under
    /// itself
    table: WordTable,
    /// The hashes in the order in which they arrived, the oldest at the head
    ring_buffer: VecDeque<u64>,
    /// How many hashes the queue may hold
    cap: usize,
}

impl View for GhostFIFOCache {
    type V = Seq<u64>;

    closed spec fn view(&self) -> Seq<u64> {
        self.ring_buffer@
    }
}

impl GhostFIFOCache {
    /// How many hashes the queue may hold.
    pub closed spec fn spec_capacity(&self) -> nat {
        self.cap as nat
    }

    /// The queue is within its bound, holds no hash twice, and its table
    /// holds exactly the hashes of the queue.
    pub closed spec fn wf(&self) -> bool {
        &&& self.cap <= TABLE_LIMIT
        &&& self.ring_buffer@.len() <= self.cap
        &&& self.ring_buffer@.no_duplicates()
        &&& table_items(self.table).len() == self.ring_buffer@.len()
        &&& forall|h: u64, w: u64| #[trigger]
            table_items(self.table).count((h, w)) == if h == w && self.ring_buffer@.contains(w) {
                1nat
            } else {
                0nat
            }
    }

    /// A well-formed queue is within its bound and holds no hash twice.
    pub proof fn lemma_wf(&self)
        requires
            self.wf(),
        ensures
            self@.len() <= self.spec_capacity(),
            self@.no_duplicates(),
    {
    }

    /// An empty queue that may hold `cap` hashes.
    pub fn new(cap: usize) -> (g: Self)
        requires
            cap <= TABLE_LIMIT,
        ensures
            g.wf(),
            g@ == Seq::<u64>::empty(),
            g.spec_capacity() == cap,
    {
        let g = Self { table: table_with_capacity(cap), ring_buffer: VecDeque::with_capacity(cap), cap };
        assert(forall|w: u64| !g.ring_buffer@.contains(w));
        g
    }

    /// Whether the queue holds `hash`.
    pub fn contains(&self, hash: u64) -> (found: bool)
        requires
            self.wf(),
        ensures
            found == self@.contains(hash),
    {
        let eq = |probe: &u64| -> (same: bool)
            ensures
                same == (*probe == hash),
            { *probe == hash };
        let found = table_find(&self.table, hash, eq);
        proof {
            if self@.contains(hash) {
                assert(table_items(self.table).count((hash, hash)) == 1);
            }
            if let Some(w) = found {
                let h: u64 = choose|h: u64| #[trigger] table_items(self.table).count((h, w)) > 0;
                assert(table_items(self.table).count((h, w)) > 0);
            }
        }
        found.is_some()
    }

    /// Offers `hash` to the queue. A hash that is already there changes
    /// nothing, and neither does any hash where the queue may hold nothing.
    /// Otherwise the hash joins at the tail, and the oldest hash leaves first
    /// where the queue is full.
    pub fn insert(&mut self, hash: u64)
        requires
            old(self).wf(),
        ensures
            final(self).wf(),
            final(self).spec_capacity() == old(self).spec_capacity(),
            final(self)@ == ghost_insert(old(self)@, old(self).spec_capacity(), hash),
    {
        if self.cap == 0 || self.contains(hash) {
            return ;
        }
        if self.ring_buffer.len() >= self.cap {
            // full
            let garbage_hash: u64 = match self.ring_buffer.pop_front() {
                Some(oldest) => oldest,
                None => unreached(),
            };
            proof {
                lemma_behead(old(self).ring_buffer@);
                assert(old(self).ring_buffer@.contains(garbage_hash)) by {
                    assert(old(self).ring_buffer@[0] == garbage_hash);
                }
            }
            unfile(&mut self.table, garbage_hash, garbage_hash);
        }
        proof {
            lemma_append(self.ring_buffer@, hash);
        }
        self.ring_buffer.push_back(hash);
        let hasher = |probe: &u64| -> (h: u64)
            ensures
                h == *probe,
            { *probe };
        table_insert_unique(&mut self.table, hash, hash, hasher);
    }

    /// How many hashes the queue holds.
    pub fn len(&self) -> (n: usize)
        ensures
            n == self@.len(),
    {
        self.ring_buffer.len()
    }

    /// How many hashes the queue may hold.
    pub fn capacity(&self) -> (n: usize)
        ensures
            n == self.spec_capacity(),
    {
        self.cap
    }
}

} // verus!
