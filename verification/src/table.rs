//! A table of 64-bit words that are filed and looked up under hashes given
//! by the caller. The table is `hashbrown::HashTable<u64>`; nothing in this
//! file is proved, and everything else builds on what it states.

use vstd::prelude::*;
use vstd::multiset::Multiset;
use hashbrown::HashTable;

verus! {

/// The most words a table is ever asked to make room for. Below it the
/// layout of the table's memory fits the address space, also after the table
/// has doubled once more.
pub const TABLE_LIMIT: usize = usize::MAX / 128;

/// A `hashbrown::HashTable<u64>`, held opaquely. What it holds is
/// [`table_items`].
#[verifier::external_body]
pub struct WordTable {
    inner: HashTable<u64>,
}

/// The words that a table holds, each paired with the hash that it was
/// inserted under: `(hash, word)`. A pair occurs as often as it was inserted
/// and not removed.
pub uninterp spec fn table_items(table: WordTable) -> Multiset<(u64, u64)>;

/// `HashTable::with_capacity`: a table that holds nothing. The bound keeps
/// the call away from hashbrown's capacity overflow; running out of memory is
/// not modelled.
#[verifier::external_body]
pub(crate) fn table_with_capacity(capacity: usize) -> (table: WordTable)
    requires
        capacity <= TABLE_LIMIT,
    ensures
        table_items(table) == Multiset::<(u64, u64)>::empty(),
{
    WordTable { inner: HashTable::with_capacity(capacity) }
}

/// `HashTable::len`: the number of words in the table.
#[verifier::external_body]
pub(crate) fn table_len(table: &WordTable) -> (n: usize)
    ensures
        n == table_items(*table).len(),
{
    table.inner.len()
}

/// `HashTable::find`: hashbrown calls `eq` on every word that was inserted
/// under `hash`, and perhaps on others, until `eq` returns true, and hands
/// back the word on which it did. So a word that comes back is held by the
/// table and `eq` accepted it; and where none comes back `eq` refused every
/// word inserted under `hash`. `eq` is only ever called on words of the
/// table.
#[verifier::external_body]
pub(crate) fn table_find<F: Fn(&u64) -> bool>(table: &WordTable, hash: u64, eq: F) -> (found:
    Option<u64>)
    requires
        forall|h: u64, w: u64| #[trigger]
            table_items(*table).count((h, w)) > 0 ==> call_requires(eq, (&w,)),
    ensures
        match found {
            Some(w) => {
                &&& call_ensures(eq, (&w,), true)
                &&& exists|h: u64| #[trigger] table_items(*table).count((h, w)) > 0
            },
            None => forall|w: u64| #[trigger]
                table_items(*table).count((hash, w)) > 0 ==> call_ensures(eq, (&w,), false),
        },
{
    table.inner.find(hash, eq).copied()
}

/// `HashTable::insert_unique`: the word joins the table under `hash`, with no
/// check for an equal word. hashbrown calls `hasher` on words already there
/// when it moves them, and asks that it return the hash each was inserted
/// under; only then does [`table_find`] keep finding them. The bound on the
/// number of words keeps the call away from hashbrown's capacity overflow.
#[verifier::external_body]
pub(crate) fn table_insert_unique<F: Fn(&u64) -> u64>(
    table: &mut WordTable,
    hash: u64,
    word: u64,
    hasher: F,
)
    requires
        table_items(*old(table)).len() < TABLE_LIMIT,
        forall|h: u64, w: u64| #[trigger]
            table_items(*old(table)).count((h, w)) > 0 ==> {
                &&& call_requires(hasher, (&w,))
                &&& forall|r: u64| call_ensures(hasher, (&w,), r) ==> r == h
            },
    ensures
        table_items(*final(table)) == table_items(*old(table)).insert((hash, word)),
{
    table.inner.insert_unique(hash, word, hasher);
}

/// `HashTable::find_entry`, then `OccupiedEntry::remove` on the entry found:
/// the search is that of [`table_find`], and the word on which `eq` returned
/// true leaves the table and is handed back. Where `eq` refused every word
/// inserted under `hash`, the table is left as it was.
#[verifier::external_body]
pub(crate) fn table_remove<F: Fn(&u64) -> bool>(table: &mut WordTable, hash: u64, eq: F) -> (removed:
    Option<u64>)
    requires
        forall|h: u64, w: u64| #[trigger]
            table_items(*old(table)).count((h, w)) > 0 ==> call_requires(eq, (&w,)),
    ensures
        match removed {
            Some(w) => {
                &&& call_ensures(eq, (&w,), true)
                &&& exists|h: u64| #[trigger]
                    table_items(*old(table)).count((h, w)) > 0 && table_items(*final(table))
                        == table_items(*old(table)).remove((h, w))
            },
            None => {
                &&& table_items(*final(table)) == table_items(*old(table))
                &&& forall|w: u64| #[trigger]
                    table_items(*old(table)).count((hash, w)) > 0 ==> call_ensures(
                        eq,
                        (&w,),
                        false,
                    )
            },
        },
{
    match table.inner.find_entry(hash, eq) {
        Ok(entry) => Some(entry.remove().0),
        Err(_) => None,
    }
}

} // verus!
