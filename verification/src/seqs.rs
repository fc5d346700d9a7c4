//! Facts about sequences without repetition as they lose their head and
//! gain a tail.

use vstd::prelude::*;

verus! {

/// Without its head, a sequence without repetition holds what it held but
/// the head.
pub proof fn lemma_behead<A>(q: Seq<A>)
    requires
        q.no_duplicates(),
        q.len() > 0,
    ensures
        q.drop_first().no_duplicates(),
        q.drop_first().len() == q.len() - 1,
        forall|a: A| #[trigger] q.drop_first().contains(a) <==> (q.contains(a) && a != q[0]),
{
    let r = q.drop_first();
    assert forall|a: A| #[trigger] r.contains(a) <==> (q.contains(a) && a != q[0]) by {
        if r.contains(a) {
            let i: int = choose|i: int| 0 <= i < r.len() && r[i] == a;
            assert(q[i + 1] == a);
        }
        if q.contains(a) && a != q[0] {
            let i: int = choose|i: int| 0 <= i < q.len() && q[i] == a;
            assert(r[i - 1] == a);
        }
    }
}

/// With one more element that it did not hold, a sequence without
/// repetition stays without repetition and holds that element too.
pub proof fn lemma_append<A>(q: Seq<A>, tail: A)
    requires
        q.no_duplicates(),
        !q.contains(tail),
    ensures
        q.push(tail).no_duplicates(),
        q.push(tail).len() == q.len() + 1,
        forall|a: A| #[trigger] q.push(tail).contains(a) <==> (q.contains(a) || a == tail),
{
    let r = q.push(tail);
    assert forall|a: A| #[trigger] r.contains(a) <==> (q.contains(a) || a == tail) by {
        if q.contains(a) {
            let i: int = choose|i: int| 0 <= i < q.len() && q[i] == a;
            assert(r[i] == a);
        }
        if a == tail {
            assert(r[q.len() as int] == a);
        }
    }
    assert forall|i: int, j: int| 0 <= i < r.len() && 0 <= j < r.len() && i != j implies r[i]
        != r[j] by {
        if i < q.len() {
            assert(q.contains(r[i]));
        }
        if j < q.len() {
            assert(q.contains(r[j]));
        }
    }
}

/// With its head sent to its tail, a sequence without repetition stays
/// without repetition and holds what it held.
pub proof fn lemma_requeue<A>(q: Seq<A>)
    requires
        q.no_duplicates(),
        q.len() > 0,
    ensures
        q.drop_first().push(q[0]).no_duplicates(),
        q.drop_first().push(q[0]).len() == q.len(),
        forall|a: A| #[trigger] q.drop_first().push(q[0]).contains(a) <==> q.contains(a),
{
    lemma_behead(q);
    lemma_append(q.drop_first(), q[0]);
    assert(q.contains(q[0]));
}

/// Without its last element, a sequence without repetition holds what it
/// held but that element.
pub proof fn lemma_curtail<A>(q: Seq<A>)
    requires
        q.no_duplicates(),
        q.len() > 0,
    ensures
        q.drop_last().no_duplicates(),
        q.drop_last().len() == q.len() - 1,
        forall|a: A| #[trigger] q.drop_last().contains(a) <==> (q.contains(a) && a != q.last()),
{
    let r = q.drop_last();
    assert forall|a: A| #[trigger] r.contains(a) <==> (q.contains(a) && a != q.last()) by {
        if r.contains(a) {
            let i: int = choose|i: int| 0 <= i < r.len() && r[i] == a;
            assert(q[i] == a);
        }
        if q.contains(a) && a != q.last() {
            let i: int = choose|i: int| 0 <= i < q.len() && q[i] == a;
            assert(r[i] == a);
        }
    }
}

} // verus!
