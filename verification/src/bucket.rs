//! The cached entry and its frequency counter.

use vstd::prelude::*;

verus! {

/// The ceiling of the frequency counter.
pub const MAX_FREQ: u8 = 3;

/// One cached pair, together with the hash it is filed under and its
/// frequency counter.
pub struct Bucket<K, V> {
    /// Key
    pub key: K,
    /// Value
    pub value: V,
    /// Frequency, between 0 and [`MAX_FREQ`]
    pub freq: u8,
    /// Hash value of the key, kept so that it is computed once
    pub hash: u64,
}

impl<K, V> Bucket<K, V> {
    /// Whether this bucket is the one filed under `hash` for `key`.
    pub open spec fn is(self, hash: u64, key: K) -> bool {
        self.hash == hash && self.key == key
    }

    /// The bucket after one hit: the counter goes up by one and stops at
    /// [`MAX_FREQ`].
    pub open spec fn warmed(self) -> Self {
        Bucket {
            freq: if self.freq < MAX_FREQ {
                (self.freq + 1) as u8
            } else {
                MAX_FREQ
            },
            ..self
        }
    }

    /// The bucket after one eviction pass: the counter goes down by one and
    /// stops at 0.
    pub open spec fn cooled(self) -> Self {
        Bucket {
            freq: if self.freq > 0 {
                (self.freq - 1) as u8
            } else {
                0
            },
            ..self
        }
    }

    /// The bucket with its value replaced and everything else kept.
    pub open spec fn with_value(self, value: V) -> Self {
        Bucket { value, ..self }
    }

    /// A bucket as it is admitted: never hit so far.
    pub fn new(key: K, value: V, hash: u64) -> (b: Self)
        ensures
            b == (Bucket { key, value, freq: 0, hash }),
    {
        Bucket { key, value, freq: 0, hash }
    }

    /// Records one hit.
    pub fn incr_freq(&mut self)
        ensures
            *final(self) == old(self).warmed(),
    {
        if self.freq < MAX_FREQ {
            self.freq = self.freq + 1;
        } else {
            self.freq = MAX_FREQ;
        }
    }

    /// Records one eviction pass.
    pub fn decr_freq(&mut self)
        ensures
            *final(self) == old(self).cooled(),
    {
        if self.freq > 0 {
            self.freq = self.freq - 1;
        }
    }
}

} // verus!
