//! Taking words out of a table, on top of what the table states of itself.

use vstd::prelude::*;
use vstd::multiset::{lemma_insert_len, Multiset};
use crate::table::{table_items, table_remove, WordTable};

verus! {

/// Takes a word out of a table in which it is filed once, under `hash`.
pub(crate) fn unfile(table: &mut WordTable, hash: u64, word: u64)
    requires
        table_items(*old(table)).count((hash, word)) == 1,
        forall|h: u64| h != hash ==> table_items(*old(table)).count((h, word)) == 0,
    ensures
        table_items(*final(table)) == table_items(*old(table)).remove((hash, word)),
        table_items(*final(table)).len() + 1 == table_items(*old(table)).len(),
{
    let ghost items = table_items(*table);
    let eq = |probe: &u64| -> (same: bool)
        ensures
            same == (*probe == word),
        { *probe == word };
    let removed = table_remove(table, hash, eq);
    proof {
        assert(removed == Some(word));
        let h: u64 = choose|h: u64| #[trigger]
            items.count((h, word)) > 0 && table_items(*table) == items.remove((h, word));
        assert(h == hash);
        lemma_remove_len(items, (hash, word));
    }
}

/// Taking out one copy of something that is there shortens a multiset by one.
pub proof fn lemma_remove_len<A>(m: Multiset<A>, a: A)
    requires
        m.count(a) > 0,
    ensures
        m.remove(a).len() + 1 == m.len(),
{
    assert(m.remove(a).insert(a) =~= m);
    lemma_insert_len(m.remove(a), a);
}

} // verus!
