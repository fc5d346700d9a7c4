//! What holds of every cache, whatever is done to it, stated over the cache
//! as a mathematical value.

use vstd::prelude::*;
use crate::bucket::{Bucket, MAX_FREQ};
use crate::model::{
    evict_main_queue, evict_main_steps, heat, lemma_heat_drop_first, lemma_heat_push,
    lemma_heat_recycle, tempered, CacheView,
};
use crate::order::lemma_ghost_insert;

verus! {

/// An empty cache is in order, whatever its capacity.
pub proof fn law_empty_in_order<K, V>(capacity: nat)
    ensures
        CacheView::<K, V>::empty(capacity).inv(),
{
    assert(CacheView::<K, V>::empty(capacity).entries() =~= Seq::empty());
}

/// `put` leaves a cache in order.
pub proof fn law_put_in_order<K, V>(view: CacheView<K, V>, hash: u64, key: K, value: V)
    requires
        view.inv(),
    ensures
        view.put(hash, key, value).inv(),
        view.put(hash, key, value).capacity == view.capacity,
{
    let fresh = Bucket { key, value, freq: 0, hash };
    if view.holds(hash, key) {
        view.lemma_overwrite(hash, key, value);
    } else if view.ghosts.contains(hash) {
        view.lemma_main_room();
        view.main_room().lemma_admit_main(fresh);
    } else if view.small_cap() == 0 {
        lemma_ghost_insert(view.ghosts, view.ghost_cap(), hash);
    } else {
        view.lemma_small_room();
        view.small_room().lemma_admit_small(fresh);
    }
}

/// A hit or a miss leaves a cache in order.
pub proof fn law_get_in_order<K, V>(view: CacheView<K, V>, hash: u64, key: K)
    requires
        view.inv(),
    ensures
        view.touch(hash, key).inv(),
        view.touch(hash, key).capacity == view.capacity,
{
    view.lemma_touch(hash, key);
}

/// Each queue of a cache that is in order is within its bound, and the two
/// queues of entries together are within the configured capacity.
pub proof fn law_queues_bounded<K, V>(view: CacheView<K, V>)
    requires
        view.inv(),
    ensures
        view.small.len() <= view.capacity / 10,
        view.main.len() <= view.capacity * 9 / 10,
        view.ghosts.len() <= view.capacity * 9 / 10,
        view.small.len() + view.main.len() <= view.capacity,
{
}

/// Every frequency counter of a cache that is in order is 0, 1, 2 or 3.
pub proof fn law_freq_bounded<K, V>(view: CacheView<K, V>, i: int)
    requires
        view.inv(),
        0 <= i < view.entries().len(),
    ensures
        0 <= view.entries()[i].freq <= 3,
{
}

/// No two entries of a cache that is in order, in one queue or in both, are
/// filed under the same hash for the same key.
pub proof fn law_no_entry_twice<K, V>(view: CacheView<K, V>, i: int, j: int)
    requires
        view.inv(),
        0 <= i < view.entries().len(),
        0 <= j < view.entries().len(),
        i != j,
    ensures
        !(view.entries()[i].hash == view.entries()[j].hash && view.entries()[i].key
            == view.entries()[j].key),
{
    assert(!view.entries()[i].is(view.entries()[j].hash, view.entries()[j].key));
}

/// Where every entry is filed under the hash that one function gives its
/// key, no key appears twice, in one queue or in both.
pub proof fn law_no_key_twice<K, V>(
    view: CacheView<K, V>,
    hasher: spec_fn(K) -> u64,
    i: int,
    j: int,
)
    requires
        view.inv(),
        view.hashed_by(hasher),
        0 <= i < view.entries().len(),
        0 <= j < view.entries().len(),
        i != j,
    ensures
        view.entries()[i].key != view.entries()[j].key,
{
    assert(!view.entries()[i].is(view.entries()[j].hash, view.entries()[j].key));
    assert(view.entries()[i].hash == hasher(view.entries()[i].key));
    assert(view.entries()[j].hash == hasher(view.entries()[j].key));
}

/// The entry filed under a hash for a key, in a cache that is in order, is
/// any entry that is filed so.
pub proof fn law_entry_unique<K, V>(view: CacheView<K, V>, hash: u64, key: K, i: int)
    requires
        view.inv(),
        0 <= i < view.entries().len(),
        view.entries()[i].is(hash, key),
    ensures
        view.holds(hash, key),
        view.entry(hash, key) == view.entries()[i],
        view.value_of(hash, key) == Some(view.entries()[i].value),
{
    view.lemma_entry_unique(hash, key, i);
}

/// After `put`, `get` of the same key under the same hash finds the value
/// that was put: the pair is there as soon as `put` returns, where `put`
/// keeps it at all.
pub proof fn law_put_then_get<K, V>(view: CacheView<K, V>, hash: u64, key: K, value: V)
    requires
        view.inv(),
        view.keeps(hash, key),
    ensures
        view.put(hash, key, value).value_of(hash, key) == Some(value),
{
    let after = view.put(hash, key, value);
    let fresh = Bucket { key, value, freq: 0, hash };
    law_put_in_order(view, hash, key, value);
    if view.holds(hash, key) {
        let i: int = choose|i: int|
            0 <= i < view.entries().len() && #[trigger] view.entries()[i].is(hash, key);
        view.lemma_overwrite(hash, key, value);
        assert(after.entries()[i] == view.entries()[i].with_value(value));
        law_entry_unique(after, hash, key, i);
    } else if view.ghosts.contains(hash) {
        let last: int = after.entries().len() - 1;
        assert(after.entries()[last] == fresh);
        law_entry_unique(after, hash, key, last);
    } else {
        let at: int = after.small.len() - 1;
        assert(after.entries()[at] == fresh);
        law_entry_unique(after, hash, key, at);
    }
}

/// Of two `put`s of the same key under the same hash, the second returns
/// the value of the first, and `get` then finds the value of the second.
pub proof fn law_put_twice<K, V>(view: CacheView<K, V>, hash: u64, key: K, first: V, second: V)
    requires
        view.inv(),
        view.keeps(hash, key),
    ensures
        view.put(hash, key, first).value_of(hash, key) == Some(first),
        view.put(hash, key, first).put(hash, key, second).value_of(hash, key) == Some(second),
{
    law_put_then_get(view, hash, key, first);
    law_put_in_order(view, hash, key, first);
    law_put_then_get(view.put(hash, key, first), hash, key, second);
}

/// `put` of one key changes the value of no other: what is filed afterwards
/// under another hash or for another key was filed so before, with the same
/// value.
pub proof fn law_put_leaves_others<K, V>(
    view: CacheView<K, V>,
    hash: u64,
    key: K,
    value: V,
    other_hash: u64,
    other_key: K,
)
    requires
        view.inv(),
        !(other_hash == hash && other_key == key),
        view.put(hash, key, value).holds(other_hash, other_key),
    ensures
        view.holds(other_hash, other_key),
        view.put(hash, key, value).value_of(other_hash, other_key) == view.value_of(
            other_hash,
            other_key,
        ),
{
    let fresh = Bucket { key, value, freq: 0, hash };
    if view.holds(hash, key) {
        view.lemma_overwrite(hash, key, value);
    } else if view.ghosts.contains(hash) {
        view.lemma_main_room();
        view.main_room().lemma_admit_main(fresh);
        assert(view.main_room().holds(other_hash, other_key));
    } else if view.small_cap() == 0 {
    } else {
        view.lemma_small_room();
        view.small_room().lemma_admit_small(fresh);
        assert(view.small_room().holds(other_hash, other_key));
    }
}

/// `get` changes no value and takes nothing out: what is filed before is
/// filed afterwards, and the other way round, with the same value.
pub proof fn law_get_leaves_values<K, V>(
    view: CacheView<K, V>,
    hash: u64,
    key: K,
    other_hash: u64,
    other_key: K,
)
    requires
        view.inv(),
    ensures
        view.touch(hash, key).holds(other_hash, other_key) == view.holds(other_hash, other_key),
        view.touch(hash, key).value_of(other_hash, other_key) == view.value_of(
            other_hash,
            other_key,
        ),
{
    view.lemma_touch(hash, key);
}

/// Where every entry is filed under the hash that one function gives its
/// key, it stays so when a key is put under the hash that the function
/// gives it.
pub proof fn law_put_keeps_hashing<K, V>(
    view: CacheView<K, V>,
    hasher: spec_fn(K) -> u64,
    key: K,
    value: V,
)
    requires
        view.inv(),
        view.hashed_by(hasher),
    ensures
        view.put(hasher(key), key, value).hashed_by(hasher),
{
    let hash = hasher(key);
    let after = view.put(hash, key, value);
    law_put_in_order(view, hash, key, value);
    assert forall|i: int| 0 <= i < after.entries().len() implies (#[trigger] after.entries()[i]).hash
        == hasher(after.entries()[i].key) by {
        let e = after.entries()[i];
        if !(e.hash == hash && e.key == key) {
            assert(after.entries()[i].is(e.hash, e.key));
            law_put_leaves_others(view, hash, key, value, e.hash, e.key);
            let j: int = choose|j: int|
                0 <= j < view.entries().len() && #[trigger] view.entries()[j].is(e.hash, e.key);
            assert(view.entries()[j].hash == hasher(view.entries()[j].key));
        }
    }
}

/// Where every entry is filed under the hash that one function gives its
/// key, it stays so through `get`.
pub proof fn law_get_keeps_hashing<K, V>(
    view: CacheView<K, V>,
    hasher: spec_fn(K) -> u64,
    hash: u64,
    key: K,
)
    requires
        view.inv(),
        view.hashed_by(hasher),
    ensures
        view.touch(hash, key).hashed_by(hasher),
{
    view.lemma_touch(hash, key);
    let after = view.touch(hash, key);
    assert forall|i: int| 0 <= i < after.entries().len() implies (#[trigger] after.entries()[i]).hash
        == hasher(after.entries()[i].key) by {
        assert(view.entries()[i].hash == hasher(view.entries()[i].key));
    }
}

/// Replacing a value moves nothing and leaves every counter as it was.
pub proof fn law_replace_keeps_place<K, V>(
    view: CacheView<K, V>,
    hash: u64,
    key: K,
    value: V,
    i: int,
)
    requires
        view.inv(),
        view.holds(hash, key),
        0 <= i < view.entries().len(),
    ensures
        view.put(hash, key, value).entries().len() == view.entries().len(),
        view.put(hash, key, value).entries()[i].freq == view.entries()[i].freq,
        view.put(hash, key, value).entries()[i].hash == view.entries()[i].hash,
        view.put(hash, key, value).entries()[i].key == view.entries()[i].key,
        view.put(hash, key, value).ghosts == view.ghosts,
{
    view.lemma_overwrite(hash, key, value);
}

/// The heat of tempered entries is at most three for each.
pub proof fn lemma_heat_bounded<K, V>(queue: Seq<Bucket<K, V>>)
    requires
        tempered(queue),
    ensures
        heat(queue) <= 3 * queue.len(),
    decreases queue.len(),
{
    if queue.len() > 0 {
        assert forall|i: int| 0 <= i < queue.drop_last().len() implies (
        #[trigger] queue.drop_last()[i]).freq <= MAX_FREQ by {
            assert(queue[i].freq <= MAX_FREQ);
        }
        lemma_heat_bounded(queue.drop_last());
        assert(queue.last().freq <= MAX_FREQ);
    }
}

/// One eviction from the main queue examines at most one head more than the
/// queue's heat.
pub proof fn lemma_evict_main_steps<K, V>(main: Seq<Bucket<K, V>>)
    ensures
        evict_main_steps(main) <= heat(main) + 1,
        main.len() == 0 ==> evict_main_steps(main) == 0,
    decreases heat(main),
{
    if main.len() != 0 && main[0].cooled().freq > 0 {
        lemma_heat_recycle(main);
        lemma_evict_main_steps(main.drop_first().push(main[0].cooled()));
    }
}

/// One eviction from the main queue of a cache that is in order ends within
/// four steps for each entry of the queue, and so within four times the
/// capacity.
pub proof fn law_evict_main_ends<K, V>(view: CacheView<K, V>)
    requires
        view.inv(),
    ensures
        evict_main_steps(view.main) <= 4 * view.main.len(),
        evict_main_steps(view.main) <= 4 * view.capacity,
{
    assert forall|i: int| 0 <= i < view.main.len() implies (#[trigger] view.main[i]).freq
        <= MAX_FREQ by {
        assert(view.entries()[view.small.len() + i] == view.main[i]);
    }
    lemma_heat_bounded(view.main);
    lemma_evict_main_steps(view.main);
}

/// What one eviction from the main queue examines and what it leaves of the
/// queue's heat are together at most the heat and one.
pub proof fn lemma_evict_main_spends_heat<K, V>(main: Seq<Bucket<K, V>>)
    ensures
        evict_main_steps(main) + heat(evict_main_queue(main)) <= heat(main) + 1,
    decreases heat(main),
{
    if main.len() == 0 {
    } else if main[0].cooled().freq > 0 {
        lemma_heat_recycle(main);
        lemma_evict_main_spends_heat(main.drop_first().push(main[0].cooled()));
    } else {
        lemma_heat_drop_first(main);
    }
}

/// One eviction from the small queue examines, in both queues together, at
/// most four heads for each entry of the small queue and one for each unit
/// of the main queue's heat.
pub proof fn lemma_evict_small_work<K, V>(view: CacheView<K, V>)
    requires
        tempered(view.small),
    ensures
        view.evict_small_work() <= heat(view.main) + 4 * view.small.len(),
    decreases view.small.len(),
{
    if view.small.len() != 0 && view.small[0].cooled().freq > 0 {
        let room = view.main_room();
        let next = room.promote();
        assert forall|i: int| 0 <= i < next.small.len() implies (#[trigger] next.small[i]).freq
            <= MAX_FREQ by {
            assert(view.small[i + 1].freq <= MAX_FREQ);
        }
        lemma_evict_main_spends_heat(view.main);
        lemma_heat_push(room.main, view.small[0].cooled());
        lemma_evict_small_work(next);
        assert(view.small[0].freq <= MAX_FREQ);
    }
}

/// One eviction from the small queue of a cache that is in order, with the
/// evictions from the main queue that it calls for, ends within four steps
/// for each entry of the two queues, and so within four times the capacity.
pub proof fn law_evict_small_work_ends<K, V>(view: CacheView<K, V>)
    requires
        view.inv(),
    ensures
        view.evict_small_work() <= 4 * (view.small.len() + view.main.len()),
        view.evict_small_work() <= 4 * view.capacity,
{
    assert forall|i: int| 0 <= i < view.main.len() implies (#[trigger] view.main[i]).freq
        <= MAX_FREQ by {
        assert(view.entries()[view.small.len() + i] == view.main[i]);
    }
    assert forall|i: int| 0 <= i < view.small.len() implies (#[trigger] view.small[i]).freq
        <= MAX_FREQ by {
        assert(view.entries()[i] == view.small[i]);
    }
    lemma_heat_bounded(view.main);
    lemma_evict_small_work(view);
}

/// One eviction from the small queue examines each of its entries at most
/// once.
pub proof fn lemma_evict_small_steps<K, V>(view: CacheView<K, V>)
    ensures
        view.evict_small_steps() <= view.small.len(),
    decreases view.small.len(),
{
    if view.small.len() != 0 && view.small[0].cooled().freq > 0 {
        lemma_evict_small_steps(view.main_room().promote());
    }
}

/// One eviction from the small queue of a cache that is in order ends
/// within as many steps as the queue has entries, and so within four times
/// the capacity.
pub proof fn law_evict_small_ends<K, V>(view: CacheView<K, V>)
    requires
        view.inv(),
    ensures
        view.evict_small_steps() <= view.small.len(),
        view.evict_small_steps() <= 4 * view.capacity,
{
    lemma_evict_small_steps(view);
}

} // verus!
