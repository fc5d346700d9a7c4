//! An in-memory key-value cache with S3-FIFO admission and eviction.
//!
//! Three bounded FIFO queues cooperate: a small probationary queue, a main
//! queue for entries that have shown reuse, and a ghost queue that remembers
//! only the hashes of entries that left the small queue unused. Each entry
//! carries a two-bit frequency counter; hits raise it, eviction passes lower
//! it, and nothing is reordered on access.
//!
//! [`S3FIFO`] is the cache. Its state is a [`CacheView`], and what each
//! operation does is a function on that state, defined in [`model`]. That
//! the operations keep a cache in order is shown in [`order`]; what follows
//! for every cache is stated in [`laws`], and what an eviction comes to in
//! [`laps`]. The index and the ghost queue's set are tables of hashbrown,
//! taken on trust in [`table`].

pub mod bucket;
pub mod cache;
pub mod filing;
pub mod ghost;
pub mod hashing;
pub mod laps;
pub mod laws;
pub mod model;
pub mod order;
pub mod seqs;
pub mod table;

pub use bucket::Bucket;
pub use cache::S3FIFO;
pub use ghost::GhostFIFOCache;
pub use model::CacheView;
