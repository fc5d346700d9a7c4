//! The hash builder: the one collaborator that turns keys into hashes.

use vstd::prelude::*;
use hashbrown::DefaultHashBuilder;
use std::hash::{BuildHasher, Hash};

verus! {

/// `hashbrown::DefaultHashBuilder`, carried through as it is: nothing is
/// known of what is inside.
#[verifier::external_type_specification]
#[verifier::external_body]
pub struct ExDefaultHashBuilder(DefaultHashBuilder);

/// `DefaultHashBuilder::default()`: hashbrown's default hash builder. It is
/// seeded afresh for each process, so nothing is stated of it.
#[verifier::external_body]
pub(crate) fn default_hash_builder() -> DefaultHashBuilder {
    DefaultHashBuilder::default()
}

/// `BuildHasher::hash_one`: the hash of `key` under `hash_builder`. Which hash
/// comes back depends on the builder's seed and on the key's own `Hash`, so
/// nothing is stated of it.
#[verifier::external_body]
pub(crate) fn hash_one<K: Hash, S: BuildHasher>(hash_builder: &S, key: &K) -> u64 {
    hash_builder.hash_one(key)
}

} // verus!
