//! Why a cache stays in order: each step that the policy is made of keeps
//! every queue within its bound, every counter within its ceiling, and every
//! entry the only one filed under its hash for its key. The steps that evict
//! bring nothing in and change no value.

use vstd::prelude::*;
use crate::bucket::{Bucket, MAX_FREQ};
use crate::model::{distinct, ghost_insert, heat, lemma_heat_recycle, tempered, CacheView};

verus! {

/// Every entry of `after` is an entry of `before`, with a counter that is no
/// higher, and no entry of `before` is used twice: `from` says which one each
/// comes from.
pub open spec fn drawn_from<K, V>(
    after: Seq<Bucket<K, V>>,
    before: Seq<Bucket<K, V>>,
    from: spec_fn(int) -> int,
) -> bool {
    &&& forall|i: int|
        0 <= i < after.len() ==> {
            &&& 0 <= #[trigger] from(i) < before.len()
            &&& after[i].is(before[from(i)].hash, before[from(i)].key)
            &&& after[i].value == before[from(i)].value
            &&& after[i].freq <= before[from(i)].freq
        }
    &&& forall|i: int, j: int|
        0 <= i < after.len() && 0 <= j < after.len() && i != j ==> #[trigger] from(i)
            != #[trigger] from(j)
}

/// Entries drawn from distinct, tempered entries are distinct and tempered.
pub proof fn lemma_drawn_from<K, V>(
    after: Seq<Bucket<K, V>>,
    before: Seq<Bucket<K, V>>,
    from: spec_fn(int) -> int,
)
    requires
        drawn_from(after, before, from),
    ensures
        distinct(before) ==> distinct(after),
        tempered(before) ==> tempered(after),
{
    if distinct(before) {
        assert forall|i: int, j: int|
            0 <= i < after.len() && 0 <= j < after.len() && i != j implies !(#[trigger] after[i]).is(
            (#[trigger] after[j]).hash,
            after[j].key,
        ) by {
            assert(from(i) != from(j));
            assert(!before[from(i)].is(before[from(j)].hash, before[from(j)].key));
        }
    }
    if tempered(before) {
        assert forall|i: int| 0 <= i < after.len() implies (#[trigger] after[i]).freq <= MAX_FREQ by {
            assert(before[from(i)].freq <= MAX_FREQ);
        }
    }
}

/// Offering a hash to a ghost queue that is in order leaves it in order.
pub proof fn lemma_ghost_insert(ghost: Seq<u64>, cap: nat, hash: u64)
    requires
        ghost.len() <= cap,
        ghost.no_duplicates(),
    ensures
        ghost_insert(ghost, cap, hash).len() <= cap,
        ghost_insert(ghost, cap, hash).no_duplicates(),
        cap > 0 ==> ghost_insert(ghost, cap, hash).contains(hash),
{
    let after = ghost_insert(ghost, cap, hash);
    if cap == 0 || ghost.contains(hash) {
    } else if ghost.len() >= cap {
        assert(after.last() == hash);
        assert forall|i: int, j: int|
            0 <= i < after.len() && 0 <= j < after.len() && i != j implies after[i] != after[j] by {
            if i < after.len() - 1 {
                assert(after[i] == ghost[i + 1]);
            }
            if j < after.len() - 1 {
                assert(after[j] == ghost[j + 1]);
            }
        }
    } else {
        assert(after.last() == hash);
    }
}

impl<K, V> CacheView<K, V> {
    /// Where the small queue may hold anything, the main queue may too, and
    /// the two together may hold no more than the capacity.
    pub proof fn lemma_caps(self)
        ensures
            self.small_cap() > 0 ==> self.main_cap() > 0,
            self.small_cap() + self.main_cap() <= self.capacity,
    {
    }

    /// The entry filed under a hash for a key, in a cache that is in order,
    /// is any entry that is filed so.
    pub proof fn lemma_entry_unique(self, hash: u64, key: K, i: int)
        requires
            distinct(self.entries()),
            0 <= i < self.entries().len(),
            self.entries()[i].is(hash, key),
        ensures
            self.holds(hash, key),
            self.entry(hash, key) == self.entries()[i],
            self.value_of(hash, key) == Some(self.entries()[i].value),
    {
        let j: int = choose|j: int|
            0 <= j < self.entries().len() && #[trigger] self.entries()[j].is(hash, key);
        if i != j {
            assert(!self.entries()[i].is(self.entries()[j].hash, self.entries()[j].key));
        }
    }

    /// A cache whose entries are drawn from those of one that is in order
    /// is within it.
    pub proof fn lemma_drawn_within(self, before: Self, from: spec_fn(int) -> int)
        requires
            distinct(before.entries()),
            drawn_from(self.entries(), before.entries(), from),
        ensures
            self.within(before),
    {
        lemma_drawn_from(self.entries(), before.entries(), from);
        assert forall|hash: u64, key: K| #[trigger] self.holds(hash, key) implies before.holds(
            hash,
            key,
        ) && self.value_of(hash, key) == before.value_of(hash, key) by {
            let i: int = choose|i: int|
                0 <= i < self.entries().len() && #[trigger] self.entries()[i].is(hash, key);
            assert(before.entries()[from(i)].is(hash, key));
            self.lemma_entry_unique(hash, key, i);
            before.lemma_entry_unique(hash, key, from(i));
        }
    }

    /// A hit leaves a cache in order, and every value as it was.
    pub proof fn lemma_touch(self, hash: u64, key: K)
        requires
            self.inv(),
        ensures
            self.touch(hash, key).inv(),
            self.touch(hash, key).entries().len() == self.entries().len(),
            forall|i: int|
                0 <= i < self.entries().len() ==> #[trigger] self.touch(hash, key).entries()[i]
                    == if self.entries()[i].is(hash, key) {
                    self.entries()[i].warmed()
                } else {
                    self.entries()[i]
                },
            self.touch(hash, key).within(self),
            self.within(self.touch(hash, key)),
    {
        let after = self.touch(hash, key);
        assert forall|i: int| 0 <= i < self.entries().len() implies #[trigger] after.entries()[i]
            == if self.entries()[i].is(hash, key) {
            self.entries()[i].warmed()
        } else {
            self.entries()[i]
        } by {
            if i < self.small.len() {
                assert(after.entries()[i] == after.small[i]);
            } else {
                assert(after.entries()[i] == after.main[i - self.small.len()]);
            }
        }
        assert forall|i: int, j: int|
            0 <= i < after.entries().len() && 0 <= j < after.entries().len() && i != j implies !(
        #[trigger] after.entries()[i]).is((#[trigger] after.entries()[j]).hash, after.entries()[j].key) by {
            assert(!self.entries()[i].is(self.entries()[j].hash, self.entries()[j].key));
        }
        assert forall|i: int| 0 <= i < after.entries().len() implies (#[trigger] after.entries()[i]).freq
            <= MAX_FREQ by {
            assert(self.entries()[i].freq <= MAX_FREQ);
        }
        let same = |i: int| i;
        assert(drawn_from(self.entries(), after.entries(), same));
        self.lemma_drawn_within(after, same);
        assert forall|hash2: u64, key2: K| #[trigger] after.holds(hash2, key2) implies self.holds(
            hash2,
            key2,
        ) && after.value_of(hash2, key2) == self.value_of(hash2, key2) by {
            let i: int = choose|i: int|
                0 <= i < after.entries().len() && #[trigger] after.entries()[i].is(hash2, key2);
            assert(self.entries()[i].is(hash2, key2));
            after.lemma_entry_unique(hash2, key2, i);
            self.lemma_entry_unique(hash2, key2, i);
        }
    }

    /// Replacing a value leaves a cache in order, and every other value as
    /// it was.
    pub proof fn lemma_overwrite(self, hash: u64, key: K, value: V)
        requires
            self.inv(),
        ensures
            self.overwrite(hash, key, value).inv(),
            self.overwrite(hash, key, value).within_but(self, hash, key),
            self.overwrite(hash, key, value).entries().len() == self.entries().len(),
            forall|i: int|
                0 <= i < self.entries().len() ==> #[trigger] self.overwrite(
                    hash,
                    key,
                    value,
                ).entries()[i] == if self.entries()[i].is(hash, key) {
                    self.entries()[i].with_value(value)
                } else {
                    self.entries()[i]
                },
    {
        let after = self.overwrite(hash, key, value);
        assert forall|i: int| 0 <= i < self.entries().len() implies #[trigger] after.entries()[i]
            == if self.entries()[i].is(hash, key) {
            self.entries()[i].with_value(value)
        } else {
            self.entries()[i]
        } by {
            if i < self.small.len() {
                assert(after.entries()[i] == after.small[i]);
            } else {
                assert(after.entries()[i] == after.main[i - self.small.len()]);
            }
        }
        assert forall|i: int, j: int|
            0 <= i < after.entries().len() && 0 <= j < after.entries().len() && i != j implies !(
        #[trigger] after.entries()[i]).is((#[trigger] after.entries()[j]).hash, after.entries()[j].key) by {
            assert(!self.entries()[i].is(self.entries()[j].hash, self.entries()[j].key));
        }
        assert forall|i: int| 0 <= i < after.entries().len() implies (#[trigger] after.entries()[i]).freq
            <= MAX_FREQ by {
            assert(self.entries()[i].freq <= MAX_FREQ);
        }
        assert forall|h: u64, k: K| #[trigger]
            after.holds(h, k) && !(h == hash && k == key) implies self.holds(h, k)
            && after.value_of(h, k) == self.value_of(h, k) by {
            let i: int = choose|i: int|
                0 <= i < after.entries().len() && #[trigger] after.entries()[i].is(h, k);
            assert(self.entries()[i].is(h, k));
            after.lemma_entry_unique(h, k, i);
            self.lemma_entry_unique(h, k, i);
        }
    }

    /// Sending the main queue's head back to its tail leaves a cache in
    /// order, brings nothing in and changes no value.
    pub proof fn lemma_recycle_main(self)
        requires
            self.inv(),
            self.main.len() > 0,
        ensures
            self.recycle_main().inv(),
            self.recycle_main().within(self),
    {
        let after = self.recycle_main();
        let n: int = self.small.len() as int;
        let last: int = self.entries().len() - 1;
        let from = |i: int| if i < n { i } else if i < last { i + 1 } else { n };
        assert(drawn_from(after.entries(), self.entries(), from));
        lemma_drawn_from(after.entries(), self.entries(), from);
        after.lemma_drawn_within(self, from);
    }

    /// Dropping the main queue's head leaves a cache in order, brings
    /// nothing in and changes no value.
    pub proof fn lemma_drop_main(self)
        requires
            self.inv(),
            self.main.len() > 0,
        ensures
            self.drop_main().inv(),
            self.drop_main().within(self),
    {
        let after = self.drop_main();
        let n: int = self.small.len() as int;
        let from = |i: int| if i < n { i } else { i + 1 };
        assert(drawn_from(after.entries(), self.entries(), from));
        lemma_drawn_from(after.entries(), self.entries(), from);
        after.lemma_drawn_within(self, from);
    }

    /// Moving the small queue's head to a main queue that has room leaves a
    /// cache in order, brings nothing in and changes no value.
    pub proof fn lemma_promote(self)
        requires
            self.inv(),
            self.small.len() > 0,
            self.main.len() < self.main_cap(),
        ensures
            self.promote().inv(),
            self.promote().within(self),
    {
        let after = self.promote();
        let last: int = self.entries().len() - 1;
        let from = |i: int| if i < last { i + 1 } else { 0 };
        assert(drawn_from(after.entries(), self.entries(), from));
        lemma_drawn_from(after.entries(), self.entries(), from);
        after.lemma_drawn_within(self, from);
    }

    /// Dropping the small queue's head leaves a cache in order, brings
    /// nothing in and changes no value.
    pub proof fn lemma_drop_small(self)
        requires
            self.inv(),
            self.small.len() > 0,
        ensures
            self.drop_small().inv(),
            self.drop_small().within(self),
    {
        let after = self.drop_small();
        let from = |i: int| i + 1;
        assert(drawn_from(after.entries(), self.entries(), from));
        lemma_drawn_from(after.entries(), self.entries(), from);
        lemma_ghost_insert(self.ghosts, self.ghost_cap(), self.small[0].hash);
        after.lemma_drawn_within(self, from);
    }

    /// A bucket that is filed under a hash and key of its own may join a
    /// small queue that has room; what was there stays, with its value.
    pub proof fn lemma_admit_small(self, bucket: Bucket<K, V>)
        requires
            self.inv(),
            self.small.len() < self.small_cap(),
            !self.holds(bucket.hash, bucket.key),
            bucket.freq <= MAX_FREQ,
        ensures
            self.admit_small(bucket).inv(),
            self.within(self.admit_small(bucket)),
            self.admit_small(bucket).within_but(self, bucket.hash, bucket.key),
    {
        let after = self.admit_small(bucket);
        let n: int = self.small.len() as int;
        assert forall|i: int, j: int|
            0 <= i < after.entries().len() && 0 <= j < after.entries().len() && i != j implies !(
        #[trigger] after.entries()[i]).is((#[trigger] after.entries()[j]).hash, after.entries()[j].key) by {
            let a: int = if i < n { i } else { i - 1 };
            let b: int = if j < n { j } else { j - 1 };
            if i != n {
                assert(after.entries()[i] == self.entries()[a]);
                assert(!self.entries()[a].is(bucket.hash, bucket.key));
            }
            if j != n {
                assert(after.entries()[j] == self.entries()[b]);
                assert(!self.entries()[b].is(bucket.hash, bucket.key));
            }
        }
        assert forall|i: int| 0 <= i < after.entries().len() implies (#[trigger] after.entries()[i]).freq
            <= MAX_FREQ by {
            let a: int = if i < n { i } else { i - 1 };
            if i != n {
                assert(after.entries()[i] == self.entries()[a]);
            }
        }
        let from = |i: int| if i < n { i } else { i + 1 };
        assert(drawn_from(self.entries(), after.entries(), from));
        self.lemma_drawn_within(after, from);
        assert forall|h: u64, k: K| #[trigger]
            after.holds(h, k) && !(h == bucket.hash && k == bucket.key) implies self.holds(h, k)
            && after.value_of(h, k) == self.value_of(h, k) by {
            let i: int = choose|i: int|
                0 <= i < after.entries().len() && #[trigger] after.entries()[i].is(h, k);
            let a: int = if i < n { i } else { i - 1 };
            assert(after.entries()[i] == self.entries()[a]);
            after.lemma_entry_unique(h, k, i);
            self.lemma_entry_unique(h, k, a);
        }
    }

    /// A bucket that is filed under a hash and key of its own may join a
    /// main queue that has room; what was there stays, with its value.
    pub proof fn lemma_admit_main(self, bucket: Bucket<K, V>)
        requires
            self.inv(),
            self.main.len() < self.main_cap(),
            !self.holds(bucket.hash, bucket.key),
            bucket.freq <= MAX_FREQ,
        ensures
            self.admit_main(bucket).inv(),
            self.within(self.admit_main(bucket)),
            self.admit_main(bucket).within_but(self, bucket.hash, bucket.key),
    {
        let after = self.admit_main(bucket);
        let last: int = self.entries().len() as int;
        assert forall|i: int, j: int|
            0 <= i < after.entries().len() && 0 <= j < after.entries().len() && i != j implies !(
        #[trigger] after.entries()[i]).is((#[trigger] after.entries()[j]).hash, after.entries()[j].key) by {
            if i != last {
                assert(after.entries()[i] == self.entries()[i]);
                assert(!self.entries()[i].is(bucket.hash, bucket.key));
            }
            if j != last {
                assert(after.entries()[j] == self.entries()[j]);
                assert(!self.entries()[j].is(bucket.hash, bucket.key));
            }
        }
        assert forall|i: int| 0 <= i < after.entries().len() implies (#[trigger] after.entries()[i]).freq
            <= MAX_FREQ by {
            if i != last {
                assert(after.entries()[i] == self.entries()[i]);
            }
        }
        let same = |i: int| i;
        assert(drawn_from(self.entries(), after.entries(), same));
        self.lemma_drawn_within(after, same);
        assert forall|h: u64, k: K| #[trigger]
            after.holds(h, k) && !(h == bucket.hash && k == bucket.key) implies self.holds(h, k)
            && after.value_of(h, k) == self.value_of(h, k) by {
            let i: int = choose|i: int|
                0 <= i < after.entries().len() && #[trigger] after.entries()[i].is(h, k);
            assert(after.entries()[i] == self.entries()[i]);
            after.lemma_entry_unique(h, k, i);
            self.lemma_entry_unique(h, k, i);
        }
    }

    /// One eviction from the main queue leaves a cache in order and takes
    /// out exactly one entry where there is any; it brings nothing in and
    /// changes no value.
    pub proof fn lemma_evict_main(self)
        requires
            self.inv(),
        ensures
            self.evict_main().inv(),
            self.main.len() > 0 ==> self.evict_main().main.len() == self.main.len() - 1,
            self.main.len() == 0 ==> self.evict_main() == self,
            self.evict_main().within(self),
        decreases heat(self.main),
    {
        if self.main.len() == 0 {
        } else if self.main[0].cooled().freq > 0 {
            self.lemma_recycle_main();
            lemma_heat_recycle(self.main);
            self.recycle_main().lemma_evict_main();
            assert(self.evict_main() == self.recycle_main().evict_main());
        } else {
            self.lemma_drop_main();
            assert(self.evict_main() == self.drop_main());
        }
    }

    /// Making room in the main queue leaves a cache in order and the main
    /// queue short of its bound, unless the bound is 0; it brings nothing in
    /// and changes no value.
    pub proof fn lemma_main_room(self)
        requires
            self.inv(),
        ensures
            self.main_room().inv(),
            self.main_cap() > 0 ==> self.main_room().main.len() < self.main_cap(),
            self.main_room().small == self.small,
            self.main_room().ghosts == self.ghosts,
            self.main_room().capacity == self.capacity,
            self.main_room().within(self),
    {
        self.lemma_evict_main();
    }

    /// One eviction from the small queue leaves a cache in order and
    /// shortens the small queue where it held anything; it brings nothing in
    /// and changes no value.
    pub proof fn lemma_evict_small(self)
        requires
            self.inv(),
        ensures
            self.evict_small().inv(),
            self.evict_small().capacity == self.capacity,
            self.small.len() > 0 ==> self.evict_small().small.len() < self.small.len(),
            self.small.len() == 0 ==> self.evict_small() == self,
            self.evict_small().within(self),
        decreases self.small.len(),
    {
        if self.small.len() == 0 {
        } else if self.small[0].cooled().freq > 0 {
            self.lemma_caps();
            self.lemma_main_room();
            let room = self.main_room();
            room.lemma_promote();
            room.promote().lemma_evict_small();
            assert(self.evict_small() == room.promote().evict_small());
            assert forall|hash: u64, key: K| #[trigger]
                self.evict_small().holds(hash, key) implies self.holds(hash, key)
                && self.evict_small().value_of(hash, key) == self.value_of(hash, key) by {
                assert(room.promote().holds(hash, key));
                assert(room.holds(hash, key));
            }
        } else {
            self.lemma_drop_small();
            assert(self.evict_small() == self.drop_small());
        }
    }

    /// Making room in the small queue leaves a cache in order and the small
    /// queue short of its bound, unless the bound is 0; it brings nothing in
    /// and changes no value.
    pub proof fn lemma_small_room(self)
        requires
            self.inv(),
        ensures
            self.small_room().inv(),
            self.small_cap() > 0 ==> self.small_room().small.len() < self.small_cap(),
            self.small_room().capacity == self.capacity,
            self.small_room().within(self),
    {
        self.lemma_evict_small();
    }
}

} // verus!
