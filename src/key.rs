//! Keys and the hash that places them.
use vstd::prelude::*;

verus! {

/// A key that the map can store.
///
/// Two keys are the same key exactly when their words are equal: the word is
/// what the map compares and what it hashes.
pub trait HashKey: Sized + Copy {
    /// The word that identifies this key.
    spec fn word(&self) -> u64;

    fn to_word(&self) -> (r: u64)
        ensures
            r == self.word(),
    ;
}

impl HashKey for u8 {
    open spec fn word(&self) -> u64 {
        *self as u64
    }

    fn to_word(&self) -> (r: u64) {
        *self as u64
    }
}

impl HashKey for u16 {
    open spec fn word(&self) -> u64 {
        *self as u64
    }

    fn to_word(&self) -> (r: u64) {
        *self as u64
    }
}

impl HashKey for u32 {
    open spec fn word(&self) -> u64 {
        *self as u64
    }

    fn to_word(&self) -> (r: u64) {
        *self as u64
    }
}

impl HashKey for u64 {
    open spec fn word(&self) -> u64 {
        *self
    }

    fn to_word(&self) -> (r: u64) {
        *self
    }
}

impl HashKey for usize {
    open spec fn word(&self) -> u64 {
        *self as u64
    }

    fn to_word(&self) -> (r: u64) {
        *self as u64
    }
}

impl HashKey for i8 {
    open spec fn word(&self) -> u64 {
        *self as u64
    }

    fn to_word(&self) -> (r: u64) {
        *self as u64
    }
}

impl HashKey for i16 {
    open spec fn word(&self) -> u64 {
        *self as u64
    }

    fn to_word(&self) -> (r: u64) {
        *self as u64
    }
}

impl HashKey for i32 {
    open spec fn word(&self) -> u64 {
        *self as u64
    }

    fn to_word(&self) -> (r: u64) {
        *self as u64
    }
}

impl HashKey for i64 {
    open spec fn word(&self) -> u64 {
        *self as u64
    }

    fn to_word(&self) -> (r: u64) {
        *self as u64
    }
}

impl HashKey for isize {
    open spec fn word(&self) -> u64 {
        *self as u64
    }

    fn to_word(&self) -> (r: u64) {
        *self as u64
    }
}

/// Odd multiplier of the hash mix (the 64-bit golden ratio).
pub const MIX: u64 = 0x9E37_79B9_7F4A_7C15;

/// The hash of a key word under a seed: xor with the seed, multiply modulo
/// 2^64, then fold the high half into the low half.
pub open spec fn hash_word(seed: u64, w: u64) -> u64 {
    let x = (w ^ seed).wrapping_mul(MIX);
    x ^ (x >> 32u64)
}

/// Builds the hash of each key; a map keeps the one it was made with, so that
/// equal keys always hash equally.
#[derive(Clone, Copy, Debug)]
pub struct KeyHasher {
    pub seed: u64,
}

impl KeyHasher {
    /// The hasher that `LockFreeHashMap::new` and `with_capacity` use.
    pub open spec fn default_spec() -> KeyHasher {
        KeyHasher { seed: 0 }
    }

    /// The hasher that `LockFreeHashMap::new` and `with_capacity` use.
    pub fn new() -> (r: KeyHasher)
        ensures
            r == KeyHasher::default_spec(),
    {
        KeyHasher { seed: 0 }
    }

    pub fn with_seed(seed: u64) -> (r: KeyHasher)
        ensures
            r.seed == seed,
    {
        KeyHasher { seed }
    }

    pub fn hash_word_of(&self, w: u64) -> (r: u64)
        ensures
            r == hash_word(self.seed, w),
    {
        let x = (w ^ self.seed).wrapping_mul(MIX);
        x ^ (x >> 32u64)
    }
}

} // verus!
