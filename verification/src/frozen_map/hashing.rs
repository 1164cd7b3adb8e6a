//! Hashing of keys and values with `ahash`, and the mixing of entry hashes
//! into the aggregate hash of a map.

use core::hash::Hash;
use core::hash::Hasher;
use vstd::prelude::*;

verus! {

/// Multiplicative constant for the key-hash contribution to the aggregate map hash.
pub const MIX_KEY: u64 = 0x9e3779b97f4a7c15;

/// Multiplicative constant for the value-hash contribution to the aggregate map hash.
pub const MIX_VAL: u64 = 0x517cc1b727220a95;

/// Feeds `value` into a fresh `ahash::AHasher` built by `AHasher::default()`
/// and returns `finish()`.
///
/// Nothing is promised of the result: `AHasher::default()` draws its keys
/// from a random source once per process, so the same value may hash
/// differently in another process.
#[verifier::external_body]
pub(crate) fn ahash_of<T: Hash + ?Sized>(value: &T) -> u64 {
    let mut hasher = ahash::AHasher::default();
    value.hash(&mut hasher);
    hasher.finish()
}

/// A hash computed with [`ahash_of`], together with the view of the value
/// that was hashed.
///
/// The fields are private and [`hash_record`] is the only function that
/// makes a record, so the `value` of every record is what `ahash_of` gave for
/// a value whose view is its `source`.
pub struct HashRecord<A> {
    value: u64,
    source: Ghost<A>,
}

impl<A> HashRecord<A> {
    /// The hash.
    pub closed spec fn value(self) -> u64 {
        self.value
    }

    /// The view of the value that was hashed.
    pub closed spec fn source(self) -> A {
        self.source@
    }

    /// Returns the hash.
    pub fn get(&self) -> (r: u64)
        ensures
            r == self.value(),
    {
        self.value
    }
}

/// Hashes `value` with [`ahash_of`] and records which value was hashed.
pub fn hash_record<T: View + Hash>(value: &T) -> (r: HashRecord<T::V>)
    ensures
        r.source() == value@,
{
    HashRecord { value: ahash_of(value), source: Ghost(value@) }
}

/// Whether `records` are the records of hashing, in order, values whose
/// views are `sources`, and `hashes` are their hashes.
pub open spec fn hashed_from<A>(records: Seq<HashRecord<A>>, hashes: Seq<u64>, sources: Seq<A>) -> bool {
    &&& records.len() == hashes.len()
    &&& records.len() == sources.len()
    &&& forall|i: int|
        0 <= i < records.len() ==> (#[trigger] records[i]).value() == hashes[i] && records[i].source()
            == sources[i]
}

/// The contribution of one entry to the aggregate hash.
pub open spec fn mix_spec(key_hash: u64, value_hash: u64) -> u64 {
    key_hash.wrapping_mul(MIX_KEY) ^ value_hash.wrapping_mul(MIX_VAL)
}

/// The aggregate hash of entries whose keys hash to `key_hashes` and whose
/// values hash to `value_hashes`: the XOR of the contributions of all entries.
pub open spec fn aggregate_hash(key_hashes: Seq<u64>, value_hashes: Seq<u64>) -> u64
    decreases key_hashes.len(),
{
    if key_hashes.len() == 0 {
        0
    } else {
        aggregate_hash(key_hashes.drop_last(), value_hashes.drop_last()) ^ mix_spec(
            key_hashes.last(),
            value_hashes[key_hashes.len() - 1],
        )
    }
}

/// The contribution of one entry to the aggregate hash:
/// `key_hash * MIX_KEY ^ value_hash * MIX_VAL`, both products wrapping.
pub fn mix(key_hash: u64, value_hash: u64) -> (r: u64)
    ensures
        r == mix_spec(key_hash, value_hash),
{
    key_hash.wrapping_mul(MIX_KEY) ^ value_hash.wrapping_mul(MIX_VAL)
}

} // verus!
