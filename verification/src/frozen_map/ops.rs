//! Standard trait implementations for [`FrozenMap`]: `Default`, `PartialEq`,
//! `Eq`, `Clone` and `Hash`.
//!
//! Equality short-circuits on the aggregate hashes before comparing the
//! entries element-wise.

use super::key::{MapKey, MapValue};
use super::map::FrozenMap;
use core::hash::{Hash, Hasher};
use vstd::prelude::*;
use vstd::std_specs::cmp::PartialEqSpecImpl;

verus! {

impl<K: MapKey, V: MapValue> Default for FrozenMap<K, V> {
    /// Returns an empty map.
    fn default() -> (r: Self)
        ensures
            r@ == Map::<K::V, V::V>::empty(),
    {
        let r = Self::new(Vec::new());
        proof {
            assert(r@ =~= Map::<K::V, V::V>::empty());
        }
        r
    }
}

impl<K: MapKey, V: MapValue> PartialEq for FrozenMap<K, V> {
    /// Two maps are equal when their aggregate hashes agree and they hold
    /// the same entries.
    fn eq(&self, other: &Self) -> (r: bool) {
        self.precomputed_hash() == other.precomputed_hash() && self.same_entries(other)
    }
}

impl<K: MapKey, V: MapValue> PartialEqSpecImpl for FrozenMap<K, V> {
    open spec fn obeys_eq_spec() -> bool {
        true
    }

    open spec fn eq_spec(&self, other: &Self) -> bool {
        self.stored_hash() == other.stored_hash() && self@ == other@
    }
}

impl<K: MapKey, V: MapValue> Eq for FrozenMap<K, V> {
}

impl<K: MapKey, V: MapValue> Clone for FrozenMap<K, V> {
    /// A copy with the same entries and the same stored hashes.
    fn clone(&self) -> (r: Self)
        ensures
            r@ == self@,
            r.stored_hash() == self.stored_hash(),
            r.key_hashes() == self.key_hashes(),
            r.value_hashes() == self.value_hashes(),
            r.key_hash_records() == self.key_hash_records(),
            r.value_hash_records() == self.value_hash_records(),
    {
        self.duplicate()
    }
}

/// Feeds `value` to `state` with `Hasher::write_u64`.
#[verifier::external_body]
fn write_u64_to<H: Hasher>(state: &mut H, value: u64) {
    state.write_u64(value);
}

impl<K: MapKey, V: MapValue> Hash for FrozenMap<K, V> {
    /// Feeds the aggregate hash, computed at construction, into `state`.
    fn hash<H: Hasher>(&self, state: &mut H) {
        write_u64_to(state, self.precomputed_hash());
    }
}

} // verus!
