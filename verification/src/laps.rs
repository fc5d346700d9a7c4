//! What an eviction comes to, said at once instead of head by head.

use vstd::prelude::*;
use crate::bucket::{Bucket, MAX_FREQ};
use crate::model::{evict_main_queue, evict_main_steps, ghost_insert, tempered, CacheView};

verus! {

/// How many heads of a queue, from the first on, are still warm when cooled.
pub open spec fn warm_heads<K, V>(queue: Seq<Bucket<K, V>>) -> nat
    decreases queue.len(),
{
    if queue.len() == 0 || queue[0].cooled().freq == 0 {
        0
    } else {
        1 + warm_heads(queue.drop_first())
    }
}

/// The warm heads are heads: there are no more of them than entries, each
/// of them is warm when cooled, and the entry behind them, where there is
/// one, is not.
pub proof fn lemma_warm_heads<K, V>(queue: Seq<Bucket<K, V>>)
    ensures
        warm_heads(queue) <= queue.len(),
        forall|i: int| 0 <= i < warm_heads(queue) ==> (#[trigger] queue[i]).cooled().freq > 0,
        warm_heads(queue) < queue.len() ==> queue[warm_heads(queue) as int].cooled().freq == 0,
    decreases queue.len(),
{
    if queue.len() != 0 && queue[0].cooled().freq != 0 {
        let rest = queue.drop_first();
        lemma_warm_heads(rest);
        assert forall|i: int| 0 <= i < warm_heads(queue) implies (#[trigger] queue[i]).cooled().freq
            > 0 by {
            if i > 0 {
                assert(rest[i - 1] == queue[i]);
            }
        }
        if warm_heads(queue) < queue.len() {
            assert(rest[warm_heads(rest) as int] == queue[warm_heads(queue) as int]);
        }
    }
}

/// One eviction from the small queue takes its warm heads out, all of them,
/// and the head behind them, whose hash it offers to the ghost queue; it
/// examines just these.
pub proof fn law_evict_small_drains<K, V>(view: CacheView<K, V>)
    ensures
        ({
            let warm = warm_heads(view.small) as int;
            let n = view.small.len() as int;
            let after = view.evict_small();
            if warm < n {
                &&& after.small == view.small.subrange(warm + 1, n)
                &&& after.ghosts == ghost_insert(view.ghosts, view.ghost_cap(), view.small[warm].hash)
                &&& view.evict_small_steps() == warm + 1
            } else {
                &&& after.small == Seq::<Bucket<K, V>>::empty()
                &&& after.ghosts == view.ghosts
                &&& view.evict_small_steps() == n
            }
        }),
    decreases view.small.len(),
{
    let warm = warm_heads(view.small) as int;
    let n = view.small.len() as int;
    lemma_warm_heads(view.small);
    if n == 0 {
        assert(view.small =~= Seq::empty());
    } else if view.small[0].cooled().freq > 0 {
        let next = view.main_room().promote();
        assert(next.small == view.small.drop_first());
        law_evict_small_drains(next);
        lemma_warm_heads(next.small);
        if warm < n {
            assert(next.small.subrange(warm, n - 1) =~= view.small.subrange(warm + 1, n));
            assert(next.small[warm - 1] == view.small[warm]);
        }
    } else {
        assert(view.small.drop_first() =~= view.small.subrange(1, n));
    }
}

/// The lap of an eviction from the main queue in which an entry would leave
/// if none left before it: its counter, or 1 where the counter is 0.
pub open spec fn lap_of<K, V>(bucket: Bucket<K, V>) -> int {
    if bucket.freq == 0 {
        1
    } else {
        bucket.freq as int
    }
}

/// The bucket with its counter lowered by `laps`.
pub open spec fn cooled_by<K, V>(bucket: Bucket<K, V>, laps: int) -> Bucket<K, V> {
    Bucket { freq: (bucket.freq - laps) as u8, ..bucket }
}

/// The least lap of the entries of a queue.
pub open spec fn least_lap<K, V>(queue: Seq<Bucket<K, V>>) -> int
    decreases queue.len(),
{
    if queue.len() == 0 {
        1
    } else if queue.len() == 1 || lap_of(queue[0]) <= least_lap(queue.drop_first()) {
        lap_of(queue[0])
    } else {
        least_lap(queue.drop_first())
    }
}

/// The place of the first entry of a queue whose lap is the least.
pub open spec fn leaver<K, V>(queue: Seq<Bucket<K, V>>) -> int
    decreases queue.len(),
{
    if queue.len() <= 1 || lap_of(queue[0]) <= least_lap(queue.drop_first()) {
        0
    } else {
        1 + leaver(queue.drop_first())
    }
}

/// Whether `lap` is the least lap of the queue's entries and `at` the place
/// of the first entry that has it.
pub open spec fn leaves_at<K, V>(queue: Seq<Bucket<K, V>>, lap: int, at: int) -> bool {
    &&& 0 <= at < queue.len()
    &&& lap_of(queue[at]) == lap
    &&& forall|i: int| 0 <= i < at ==> lap_of(#[trigger] queue[i]) > lap
    &&& forall|i: int| 0 <= i < queue.len() ==> lap_of(#[trigger] queue[i]) >= lap
}

/// The leaver of a queue that is not empty is the first entry of the least
/// lap.
pub proof fn lemma_leaver<K, V>(queue: Seq<Bucket<K, V>>)
    requires
        queue.len() > 0,
    ensures
        leaves_at(queue, least_lap(queue), leaver(queue)),
    decreases queue.len(),
{
    if queue.len() > 1 {
        let rest = queue.drop_first();
        lemma_leaver(rest);
        let lap = least_lap(queue);
        let at = leaver(queue);
        assert forall|i: int| 0 <= i < queue.len() implies lap_of(#[trigger] queue[i]) >= lap by {
            if i > 0 {
                assert(rest[i - 1] == queue[i]);
            }
        }
        assert forall|i: int| 0 <= i < at implies lap_of(#[trigger] queue[i]) > lap by {
            if i > 0 {
                assert(rest[i - 1] == queue[i]);
            }
        }
        if at > 0 {
            assert(rest[at - 1] == queue[at]);
        }
    }
}

/// What one eviction from the main queue comes to, for a queue whose first
/// entry of the least lap is known: that entry leaves, in the lap that is
/// the least. The entries behind it come first afterwards, having been
/// cooled once in each lap before; the entries before it follow, having been
/// cooled once more. Every head of every lap before, and the heads up to the
/// leaver in the last, are examined.
pub proof fn lemma_evict_main_laps<K, V>(queue: Seq<Bucket<K, V>>, lap: int, at: int)
    requires
        leaves_at(queue, lap, at),
    ensures
        evict_main_queue(queue) == queue.subrange(at + 1, queue.len() as int).map_values(
            |b: Bucket<K, V>| cooled_by(b, lap - 1),
        ) + queue.subrange(0, at).map_values(|b: Bucket<K, V>| cooled_by(b, lap)),
        evict_main_steps(queue) == (lap - 1) * queue.len() + at + 1,
    decreases lap, at,
{
    let n = queue.len() as int;
    let target = queue.subrange(at + 1, n).map_values(|b: Bucket<K, V>| cooled_by(b, lap - 1))
        + queue.subrange(0, at).map_values(|b: Bucket<K, V>| cooled_by(b, lap));
    if queue[0].cooled().freq > 0 {
        let next = queue.drop_first().push(queue[0].cooled());
        assert(next.len() == n);
        if at > 0 {
            assert(lap_of(queue[0]) > lap);
            assert forall|i: int| 0 <= i < next.len() implies lap_of(#[trigger] next[i]) >= lap by {
                if i < n - 1 {
                    assert(next[i] == queue[i + 1]);
                }
            }
            assert forall|i: int| 0 <= i < at - 1 implies lap_of(#[trigger] next[i]) > lap by {
                assert(next[i] == queue[i + 1]);
            }
            assert(next[at - 1] == queue[at]);
            lemma_evict_main_laps(next, lap, at - 1);
            let got = next.subrange(at, n).map_values(|b: Bucket<K, V>| cooled_by(b, lap - 1))
                + next.subrange(0, at - 1).map_values(|b: Bucket<K, V>| cooled_by(b, lap));
            assert(got.len() == target.len());
            assert forall|i: int| 0 <= i < target.len() implies got[i] == target[i] by {
                if i < n - at - 1 {
                    assert(next[at + i] == queue[at + 1 + i]);
                } else if i == n - at - 1 {
                    assert(next[n - 1] == queue[0].cooled());
                    assert(cooled_by(queue[0].cooled(), lap - 1) == cooled_by(queue[0], lap));
                } else {
                    assert(next[i - (n - at)] == queue[i - (n - at) + 1]);
                }
            }
            assert(got =~= target);
        } else {
            assert(lap == queue[0].freq);
            assert forall|i: int| 0 <= i < next.len() implies lap_of(#[trigger] next[i]) >= lap - 1 by {
                if i < n - 1 {
                    assert(next[i] == queue[i + 1]);
                }
            }
            assert forall|i: int| 0 <= i < n - 1 implies lap_of(#[trigger] next[i]) > lap - 1 by {
                assert(next[i] == queue[i + 1]);
            }
            lemma_evict_main_laps(next, lap - 1, n - 1);
            let got = next.subrange(n, n).map_values(|b: Bucket<K, V>| cooled_by(b, lap - 2))
                + next.subrange(0, n - 1).map_values(|b: Bucket<K, V>| cooled_by(b, lap - 1));
            assert(got.len() == target.len());
            assert forall|i: int| 0 <= i < target.len() implies got[i] == target[i] by {
                assert(next[i] == queue[i + 1]);
            }
            assert(got =~= target);
            assert((lap - 2) * n + (n - 1) + 1 + 1 == (lap - 1) * n + 0 + 1) by (nonlinear_arith);
        }
    } else {
        assert(lap_of(queue[0]) == 1);
        assert(lap == 1 && at == 0) by {
            assert(lap_of(queue[at]) >= 1);
        }
        assert forall|i: int| 0 <= i < target.len() implies queue.drop_first()[i] == target[i] by {
            assert(cooled_by(queue[i + 1], 0) == queue[i + 1]);
        }
        assert(queue.drop_first() =~= target);
    }
}

/// What one eviction from a main queue that is not empty comes to: the
/// first entry of the least lap leaves, in that lap. The entries behind it
/// come first afterwards, having been cooled once in each lap before; the
/// entries before it follow, having been cooled once more.
pub proof fn law_evict_main_laps<K, V>(queue: Seq<Bucket<K, V>>)
    requires
        queue.len() > 0,
    ensures
        evict_main_queue(queue) == queue.subrange(
            leaver(queue) + 1,
            queue.len() as int,
        ).map_values(|b: Bucket<K, V>| cooled_by(b, least_lap(queue) - 1)) + queue.subrange(
            0,
            leaver(queue),
        ).map_values(|b: Bucket<K, V>| cooled_by(b, least_lap(queue))),
        evict_main_steps(queue) == (least_lap(queue) - 1) * queue.len() + leaver(queue) + 1,
{
    lemma_leaver(queue);
    lemma_evict_main_laps(queue, least_lap(queue), leaver(queue));
}

/// One eviction from a main queue whose counters are within their ceiling
/// ends in the third lap at the latest, having examined at most three heads
/// for each entry.
pub proof fn law_evict_main_three_laps<K, V>(queue: Seq<Bucket<K, V>>)
    requires
        queue.len() > 0,
        tempered(queue),
    ensures
        1 <= least_lap(queue) <= 3,
        evict_main_steps(queue) <= 3 * queue.len(),
{
    lemma_leaver(queue);
    law_evict_main_laps(queue);
    let lap = least_lap(queue);
    let n = queue.len() as int;
    assert(queue[leaver(queue)].freq <= MAX_FREQ);
    assert((lap - 1) * n <= 2 * n) by (nonlinear_arith)
        requires
            1 <= lap <= 3,
            n > 0,
    ;
}

} // verus!
