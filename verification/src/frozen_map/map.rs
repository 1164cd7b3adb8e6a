//! The frozen map: construction, lookup and functional updates.
//!
//! A `FrozenMap` keeps its keys in strictly increasing order in one vector
//! and the values, parallel to them, in another. An open-addressing probe
//! table maps key hashes to entry indices, and the aggregate hash of all
//! entries is computed once, at construction.
//!
//! Every constructor sorts its input entries by key; when a key occurs more
//! than once, the last entry wins. No operation ever changes a map: the
//! functional updates return new maps.

use super::hashing::{aggregate_hash, hashed_from, mix, HashRecord};
use super::key::{KeyOrder, MapKey, MapValue};
use super::pairs::{
    entries_view, has_key, keys_distinct, keys_of, lemma_pairs_to_map_append,
    lemma_pairs_to_map_distinct, lemma_pairs_to_map_dom, lemma_pairs_to_map_filter,
    lemma_pairs_to_map_len_le, lemma_pairs_to_map_value_from, lemma_sorted_distinct,
    lemma_sorted_entries_unique, pairs_to_map, strictly_sorted,
};
use super::runs::{run_entries, run_sorted, run_within, sorted_run};
use super::slot::{
    build_table, fits_in_table, home_slot, is_probe_capacity, is_vacant, lemma_mask_is_mod,
    lemma_probe_step, probe_slot, reached_at, table_wf, Slot, EMPTY,
};
use vstd::prelude::*;

verus! {

/// A fully immutable, hashable map with sorted keys.
///
/// Duplicate keys given to a constructor are resolved by last-write-wins.
pub struct FrozenMap<K: MapKey, V: MapValue> {
    /// The keys, in strictly increasing order.
    keys: Vec<K>,
    /// The values, parallel to `keys`.
    vals: Vec<V>,
    /// The probe table; its capacity is a power of two at least twice the
    /// number of entries.
    table: Vec<Slot>,
    /// The aggregate hash of all entries.
    hash: u64,
    /// The hash of each key, as computed at construction.
    key_hashes: Ghost<Seq<u64>>,
    /// The hash of each value, as computed at construction.
    val_hashes: Ghost<Seq<u64>>,
    /// The record of hashing each key.
    key_records: Ghost<Seq<HashRecord<K::V>>>,
    /// The record of hashing each value.
    val_records: Ghost<Seq<HashRecord<V::V>>>,
}

impl<K: MapKey, V: MapValue> FrozenMap<K, V> {
    /// The entries of the map in increasing key order, each key and value
    /// taken by its view.
    pub closed spec fn entries(&self) -> Seq<(K::V, V::V)> {
        Seq::new(self.keys.len() as nat, |i: int| (self.keys@[i]@, self.vals@[i]@))
    }

    /// The hash of each key, in entry order, as computed at construction.
    pub closed spec fn key_hashes(&self) -> Seq<u64> {
        self.key_hashes@
    }

    /// The hash of each value, in entry order, as computed at construction.
    pub closed spec fn value_hashes(&self) -> Seq<u64> {
        self.val_hashes@
    }

    /// The record of hashing each key, in entry order.
    pub closed spec fn key_hash_records(&self) -> Seq<HashRecord<K::V>> {
        self.key_records@
    }

    /// The record of hashing each value, in entry order.
    pub closed spec fn value_hash_records(&self) -> Seq<HashRecord<V::V>> {
        self.val_records@
    }

    /// The aggregate hash stored at construction.
    pub closed spec fn stored_hash(&self) -> u64 {
        self.hash
    }

    /// The map is well formed: its keys are strictly increasing, its probe
    /// table and aggregate hash agree with its entries' hashes, and each of
    /// those hashes was computed from its own entry. Every map is;
    /// [`FrozenMap::precomputed_hash`] states it of the map it reads.
    pub closed spec fn wf(&self) -> bool {
        self.inv()
    }

    #[verifier::type_invariant]
    spec fn inv(self) -> bool {
        &&& self.keys.len() == self.vals.len()
        &&& self.key_hashes@.len() == self.keys.len()
        &&& self.val_hashes@.len() == self.keys.len()
        &&& fits_in_table(self.keys.len() as int)
        &&& strictly_sorted::<K>(keys_of(self.entries()))
        &&& is_probe_capacity(self.keys.len() as int, self.table.len() as int)
        &&& table_wf(self.table@, self.key_hashes@, self.keys.len() as int)
        &&& self.hash == aggregate_hash(self.key_hashes@, self.val_hashes@)
        &&& hashed_from(self.key_records@, self.key_hashes@, keys_of(self.entries()))
        &&& hashed_from(self.val_records@, self.val_hashes@, values_of(self.entries()))
    }
}

impl<K: MapKey, V: MapValue> View for FrozenMap<K, V> {
    type V = Map<K::V, V::V>;

    /// The map from each key's view to its value's view.
    closed spec fn view(&self) -> Map<K::V, V::V> {
        pairs_to_map(self.entries())
    }
}

proof fn lemma_aggregate_push(kh: Seq<u64>, vh: Seq<u64>, a: u64, b: u64)
    requires
        kh.len() == vh.len(),
    ensures
        aggregate_hash(kh.push(a), vh.push(b)) == aggregate_hash(kh, vh) ^ super::hashing::mix_spec(a, b),
{
    assert(kh.push(a).drop_last() =~= kh);
    assert(vh.push(b).drop_last() =~= vh);
}

/// What strictly increasing keys tell of the map that entries describe:
/// it binds exactly their keys, each to the value of its entry.
pub proof fn lemma_sorted_entries_map<K: MapKey, VV>(s: Seq<(K::V, VV)>)
    requires
        strictly_sorted::<K>(keys_of(s)),
    ensures
        keys_distinct(s),
        pairs_to_map(s).len() == s.len(),
        forall|i: int|
            0 <= i < s.len() ==> pairs_to_map(s).contains_key(#[trigger] s[i].0) && pairs_to_map(
                s,
            )[s[i].0] == s[i].1,
        forall|k: K::V| #[trigger] pairs_to_map(s).contains_key(k) <==> has_key(s, k),
{
    lemma_sorted_distinct::<K, VV>(s);
    lemma_pairs_to_map_distinct(s);
    assert forall|k: K::V| #[trigger] pairs_to_map(s).contains_key(k) <==> has_key(s, k) by {
        lemma_pairs_to_map_dom(s, k);
    }
}

impl<K: MapKey, V: MapValue> FrozenMap<K, V> {
    /// Builds the map whose entries are those that `run` picks out of
    /// `entries`, in order.
    fn from_run(entries: &Vec<(K, V)>, run: &Vec<usize>) -> (map: Self)
        requires
            run_within(run@, 0, entries.len() as int),
            run_sorted::<K, V::V>(entries_view(entries@), run@),
            fits_in_table(run.len() as int),
        ensures
            map.entries() == run_entries(entries_view(entries@), run@),
    {
        let ghost es = entries_view(entries@);
        let m = run.len();
        let mut keys: Vec<K> = Vec::with_capacity(m);
        let mut vals: Vec<V> = Vec::with_capacity(m);
        let mut key_hashes: Vec<u64> = Vec::with_capacity(m);
        let ghost mut value_hashes: Seq<u64> = Seq::empty();
        let ghost mut key_records: Seq<HashRecord<K::V>> = Seq::empty();
        let ghost mut val_records: Seq<HashRecord<V::V>> = Seq::empty();
        let mut agg: u64 = 0;
        let mut t: usize = 0;
        while t < m
            invariant
                es == entries_view(entries@),
                m == run.len(),
                run_within(run@, 0, entries.len() as int),
                t <= m,
                keys.len() == t,
                vals.len() == t,
                key_hashes.len() == t,
                value_hashes.len() == t,
                forall|u: int|
                    0 <= u < t ==> (#[trigger] keys@[u])@ == es[run@[u] as int].0 && vals@[u]@
                        == es[run@[u] as int].1,
                agg == aggregate_hash(key_hashes@, value_hashes),
                key_records.len() == t,
                val_records.len() == t,
                forall|u: int|
                    0 <= u < t ==> (#[trigger] key_records[u]).value() == key_hashes@[u]
                        && key_records[u].source() == keys@[u]@,
                forall|u: int|
                    0 <= u < t ==> (#[trigger] val_records[u]).value() == value_hashes[u]
                        && val_records[u].source() == vals@[u]@,
            decreases m - t,
        {
            let idx = run[t];
            let k = entries[idx].0.clone_value();
            let v = entries[idx].1.clone_value();
            let kr = k.hashed();
            let vr = v.hashed();
            let kh = kr.get();
            let vh = vr.get();
            proof {
                lemma_aggregate_push(key_hashes@, value_hashes, kh, vh);
            }
            agg = agg ^ mix(kh, vh);
            keys.push(k);
            vals.push(v);
            key_hashes.push(kh);
            proof {
                value_hashes = value_hashes.push(vh);
                key_records = key_records.push(kr);
                val_records = val_records.push(vr);
            }
            t = t + 1;
        }
        let table = build_table(&key_hashes);
        let map = FrozenMap {
            keys,
            vals,
            table,
            hash: agg,
            key_hashes: Ghost(key_hashes@),
            val_hashes: Ghost(value_hashes),
            key_records: Ghost(key_records),
            val_records: Ghost(val_records),
        };
        proof {
            assert(map.entries() =~= run_entries(es, run@));
            assert forall|i: int, j: int| 0 <= i < j < m implies K::key_lt(
                #[trigger] keys_of(map.entries())[i],
                #[trigger] keys_of(map.entries())[j],
            ) by {
                assert(keys_of(map.entries())[i] == es[run@[i] as int].0);
                assert(keys_of(map.entries())[j] == es[run@[j] as int].0);
            }
        }
        map
    }

    /// Constructs a map from `(key, value)` entries.
    ///
    /// Duplicate keys are resolved by last-write-wins: a key is bound to the
    /// value of its last entry. The entries are sorted by key, each key and
    /// value is hashed with `ahash` into the aggregate hash, and the probe
    /// table is built over the key hashes.
    pub fn new(entries: Vec<(K, V)>) -> (map: Self)
        requires
            fits_in_table(entries.len() as int),
        ensures
            map@ == pairs_to_map(entries_view(entries@)),
    {
        let ghost es = entries_view(entries@);
        let run = sorted_run(&entries, 0, entries.len());
        proof {
            assert(es.subrange(0, entries.len() as int) =~= es);
            let re = run_entries(es, run@);
            assert(keys_of(re).len() == run.len());
            assert forall|i: int, j: int| 0 <= i < j < keys_of(re).len() implies K::key_lt(
                #[trigger] keys_of(re)[i],
                #[trigger] keys_of(re)[j],
            ) by {
                assert(keys_of(re)[i] == es[run@[i] as int].0);
                assert(keys_of(re)[j] == es[run@[j] as int].0);
            }
            lemma_sorted_distinct::<K, V::V>(re);
            lemma_pairs_to_map_distinct(re);
            lemma_pairs_to_map_len_le(es);
        }
        Self::from_run(&entries, &run)
    }
}

impl<K: MapKey, V: MapValue> FrozenMap<K, V> {
    /// Returns the number of entries in the map.
    pub fn len(&self) -> (r: usize)
        ensures
            r == self@.len(),
    {
        proof {
            use_type_invariant(self);
            lemma_sorted_entries_map::<K, V::V>(self.entries());
        }
        self.keys.len()
    }

    /// Returns `true` if the map contains no entries.
    pub fn is_empty(&self) -> (r: bool)
        ensures
            r <==> self@ == Map::<K::V, V::V>::empty(),
    {
        proof {
            use_type_invariant(self);
            lemma_sorted_entries_map::<K, V::V>(self.entries());
            if self.keys.len() == 0 {
                assert(self@ =~= Map::<K::V, V::V>::empty());
            } else {
                assert(self@.contains_key(self.entries()[0].0));
            }
        }
        self.keys.len() == 0
    }

    /// Returns the aggregate hash of all entries, computed at construction.
    ///
    /// It is the XOR, over the entries, of `mix(key_hash, value_hash)`,
    /// where each key and value was hashed with `ahash` when the map was
    /// built. The records of that hashing show that the hash of each key
    /// (value) was computed from that very key (value).
    pub fn precomputed_hash(&self) -> (r: u64)
        ensures
            r == self.stored_hash(),
            r == aggregate_hash(self.key_hashes(), self.value_hashes()),
            self.key_hashes().len() == self@.len(),
            self.value_hashes().len() == self@.len(),
            hashed_from(self.key_hash_records(), self.key_hashes(), keys_of(self.entries())),
            hashed_from(self.value_hash_records(), self.value_hashes(), values_of(self.entries())),
            self.wf(),
    {
        proof {
            use_type_invariant(self);
            lemma_sorted_entries_map::<K, V::V>(self.entries());
        }
        self.hash
    }

    /// Maps with the same entries have the same aggregate hash, and so compare
    /// equal, wherever hashing gave the same hash for the same key and for the
    /// same value: the aggregate hash depends on nothing but the entries and
    /// their hashes.
    pub proof fn law_equal_maps_equal_hash(&self, other: &Self)
        requires
            self.wf(),
            other.wf(),
            self@ == other@,
            forall|i: int, j: int|
                0 <= i < self.key_hash_records().len() && 0 <= j < other.key_hash_records().len()
                    && (#[trigger] self.key_hash_records()[i]).source()
                    == (#[trigger] other.key_hash_records()[j]).source() ==> self.key_hash_records()[i].value()
                    == other.key_hash_records()[j].value(),
            forall|i: int, j: int|
                0 <= i < self.value_hash_records().len() && 0 <= j < other.value_hash_records().len()
                    && (#[trigger] self.value_hash_records()[i]).source()
                    == (#[trigger] other.value_hash_records()[j]).source() ==> self.value_hash_records()[i].value()
                    == other.value_hash_records()[j].value(),
        ensures
            self.key_hashes() == other.key_hashes(),
            self.value_hashes() == other.value_hashes(),
            self.stored_hash() == other.stored_hash(),
    {
        lemma_sorted_entries_unique::<K, V::V>(self.entries(), other.entries());
        let n = self.entries().len();
        assert forall|i: int| 0 <= i < n implies self.key_hashes()[i] == other.key_hashes()[i] by {
            assert(keys_of(self.entries())[i] == keys_of(other.entries())[i]);
            assert(self.key_hash_records()[i].source() == other.key_hash_records()[i].source());
        }
        assert forall|i: int| 0 <= i < n implies self.value_hashes()[i] == other.value_hashes()[i] by {
            assert(values_of(self.entries())[i] == values_of(other.entries())[i]);
            assert(self.value_hash_records()[i].source() == other.value_hash_records()[i].source());
        }
        assert(self.key_hashes() =~= other.key_hashes());
        assert(self.value_hashes() =~= other.value_hashes());
    }

    /// The hashes that a map holds are those of its own entries: the hash
    /// of the key (of the value) of each entry was computed from that key
    /// (that value), and the aggregate hash is the XOR of their mixes.
    pub proof fn law_hashes_of_entries(&self)
        requires
            self.wf(),
        ensures
            self.stored_hash() == aggregate_hash(self.key_hashes(), self.value_hashes()),
            self.key_hashes().len() == self.entries().len(),
            self.value_hashes().len() == self.entries().len(),
            forall|i: int|
                0 <= i < self.entries().len() ==> (#[trigger] self.key_hash_records()[i]).source()
                    == self.entries()[i].0 && self.key_hash_records()[i].value() == self.key_hashes()[i],
            forall|i: int|
                0 <= i < self.entries().len() ==> (#[trigger] self.value_hash_records()[i]).source()
                    == self.entries()[i].1 && self.value_hash_records()[i].value() == self.value_hashes()[i],
            forall|i: int|
                0 <= i < self.entries().len() ==> self@.contains_key(#[trigger] self.entries()[i].0)
                    && self@[self.entries()[i].0] == self.entries()[i].1,
            self.entries().len() == self@.len(),
    {
        lemma_sorted_entries_map::<K, V::V>(self.entries());
        assert forall|i: int| 0 <= i < self.entries().len() implies (#[trigger] self.key_hash_records()[i]).source()
            == self.entries()[i].0 by {
            assert(keys_of(self.entries())[i] == self.entries()[i].0);
        }
        assert forall|i: int| 0 <= i < self.entries().len() implies (#[trigger] self.value_hash_records()[i]).source()
            == self.entries()[i].1 by {
            assert(values_of(self.entries())[i] == self.entries()[i].1);
        }
    }

    /// Probes the table for `key`, whose hash is taken to be `key_hash`,
    /// linearly from its home slot.
    ///
    /// A hit names the entry of `key`. The probe gives up at a vacant slot or
    /// after visiting every slot. When `key_hash` is the hash under which the
    /// entry of `key` was stored (and is not the vacancy marker), the probe hits.
    pub fn probe(&self, key: &K, key_hash: u64) -> (r: Option<usize>)
        ensures
            r matches Some(i) ==> i < self.entries().len() && self.entries()[i as int].0 == key@,
            (exists|i: int|
                0 <= i < self.entries().len() && #[trigger] self.entries()[i].0 == key@
                    && self.key_hashes()[i] == key_hash && key_hash != EMPTY) ==> r is Some,
    {
        proof {
            use_type_invariant(self);
        }
        let ghost n = self.keys.len() as int;
        let cap = self.table.len();
        let mask = cap - 1;
        proof {
            lemma_mask_is_mod(key_hash as usize, cap);
        }
        let mut slot = (key_hash as usize) & mask;
        let ghost home = home_slot(key_hash, cap as int);
        let mut probes: usize = 0;
        proof {
            assert(probe_slot(cap as int, home, 0) == home) by {
                vstd::arithmetic::div_mod::lemma_small_mod(home as nat, cap as nat);
            }
        }
        while probes < cap
            invariant
                cap == self.table.len(),
                mask == cap - 1,
                0 < cap,
                0 <= home < cap,
                home == home_slot(key_hash, cap as int),
                probes <= cap,
                slot as int == probe_slot(cap as int, home, probes as int),
                table_wf(self.table@, self.key_hashes@, n),
                n == self.keys.len(),
                n == self.entries().len(),
                n <= u32::MAX,
                self.vals.len() == n,
                forall|i: int, d: int|
                    0 <= i < n && #[trigger] self.entries()[i].0 == key@ && self.key_hashes@[i]
                        == key_hash && key_hash != EMPTY && #[trigger] reached_at(
                        self.table@,
                        key_hash,
                        i,
                        d,
                    ) ==> probes <= d,
            decreases cap - probes,
        {
            proof {
                lemma_probe_step(cap as int, home, probes as int);
            }
            let s = self.table[slot];
            if s.hash == EMPTY {
                proof {
                    assert forall|i: int|
                        0 <= i < n && #[trigger] self.entries()[i].0 == key@ && self.key_hashes@[i]
                            == key_hash && key_hash != EMPTY implies false by {
                        let d = choose|d: int| #[trigger] reached_at(self.table@, key_hash, i, d);
                        if probes < d {
                            assert(!is_vacant(self.table@, probe_slot(cap as int, home, probes as int)));
                        }
                    }
                }
                return None;
            }
            if s.hash == key_hash {
                proof {
                    assert(self.table@[slot as int] == s);
                    assert(!is_vacant(self.table@, slot as int));
                }
                let idx = s.idx as usize;
                if self.keys[idx].value_eq(key) {
                    proof {
                        assert(self.entries()[idx as int].0 == self.keys@[idx as int]@);
                    }
                    return Some(idx);
                }
            }
            proof {
                assert forall|i: int, d: int|
                    0 <= i < n && #[trigger] self.entries()[i].0 == key@ && self.key_hashes@[i]
                        == key_hash && key_hash != EMPTY && #[trigger] reached_at(
                        self.table@,
                        key_hash,
                        i,
                        d,
                    ) implies probes + 1 <= d by {
                    if probes == d {
                        assert(self.table@[probe_slot(cap as int, home, d)] == Slot { hash: key_hash, idx: i as u32 });
                        assert(self.entries()[i].0 == self.keys@[i]@);
                        assert(s == self.table@[slot as int]);
                    }
                }
                lemma_mask_is_mod((slot + 1) as usize, cap);
            }
            slot = (slot + 1) & mask;
            probes = probes + 1;
        }
        proof {
            assert forall|i: int|
                0 <= i < n && #[trigger] self.entries()[i].0 == key@ && self.key_hashes@[i] == key_hash
                    && key_hash != EMPTY implies false by {
                let d = choose|d: int| #[trigger] reached_at(self.table@, key_hash, i, d);
            }
        }
        None
    }

    /// Binary search for `key` over the sorted keys.
    fn search_sorted(&self, key: &K) -> (r: Option<usize>)
        ensures
            r matches Some(i) ==> i < self.entries().len() && self.entries()[i as int].0 == key@,
            r is None ==> forall|i: int|
                0 <= i < self.entries().len() ==> #[trigger] self.entries()[i].0 != key@,
    {
        proof {
            use_type_invariant(self);
        }
        let ghost es = self.entries();
        let mut lo: usize = 0;
        let mut hi: usize = self.keys.len();
        while lo < hi
            invariant
                es == self.entries(),
                es.len() == self.keys.len(),
                strictly_sorted::<K>(keys_of(es)),
                lo <= hi <= es.len(),
                forall|i: int| 0 <= i < lo ==> K::key_lt(#[trigger] es[i].0, key@),
                forall|i: int| hi <= i < es.len() ==> K::key_lt(key@, #[trigger] es[i].0),
            decreases hi - lo,
        {
            let mid = lo + (hi - lo) / 2;
            let order = self.keys[mid].compare_key(key);
            proof {
                assert(keys_of(es)[mid as int] == es[mid as int].0);
            }
            if order == KeyOrder::Equal {
                return Some(mid);
            } else if order == KeyOrder::Less {
                proof {
                    assert forall|i: int| 0 <= i < mid + 1 implies K::key_lt(#[trigger] es[i].0, key@) by {
                        if i < mid {
                            assert(keys_of(es)[i] == es[i].0);
                            K::lemma_key_lt_transitive(es[i].0, es[mid as int].0, key@);
                        }
                    }
                }
                lo = mid + 1;
            } else {
                proof {
                    assert forall|i: int| mid <= i < es.len() implies K::key_lt(key@, #[trigger] es[i].0) by {
                        if i > mid {
                            assert(keys_of(es)[i] == es[i].0);
                            K::lemma_key_lt_transitive(key@, es[mid as int].0, es[i].0);
                        }
                    }
                }
                hi = mid;
            }
        }
        proof {
            assert forall|i: int| 0 <= i < es.len() implies #[trigger] es[i].0 != key@ by {
                K::lemma_key_lt_irreflexive(key@);
            }
        }
        None
    }

    /// Finds the index of the entry of `key`.
    ///
    /// The key is hashed with `ahash` and looked up in the probe table; when
    /// the probe misses, the answer is settled by a binary search over the
    /// sorted keys.
    fn find_idx(&self, key: &K) -> (r: Option<usize>)
        ensures
            r matches Some(i) ==> i < self.entries().len() && self.entries()[i as int].0 == key@,
            r is None ==> forall|i: int|
                0 <= i < self.entries().len() ==> #[trigger] self.entries()[i].0 != key@,
    {
        let key_hash = key.hash_value();
        match self.probe(key, key_hash) {
            Some(i) => Some(i),
            None => self.search_sorted(key),
        }
    }
}

impl<K: MapKey, V: MapValue> FrozenMap<K, V> {
    /// Returns a reference to the value for `key`, or `None` if the key is absent.
    pub fn get(&self, key: &K) -> (r: Option<&V>)
        ensures
            r is Some <==> self@.contains_key(key@),
            r matches Some(v) ==> v@ == self@[key@],
    {
        proof {
            use_type_invariant(self);
            lemma_sorted_entries_map::<K, V::V>(self.entries());
        }
        match self.find_idx(key) {
            Some(i) => {
                proof {
                    assert(self.entries()[i as int].1 == self.vals@[i as int]@);
                }
                Some(&self.vals[i])
            },
            None => None,
        }
    }

    /// Returns a reference to the value for `key`, which must be present
    /// (the `map[key]` of the map).
    pub fn index(&self, key: &K) -> (r: &V)
        requires
            self@.contains_key(key@),
        ensures
            r@ == self@[key@],
    {
        self.get(key).unwrap()
    }

    /// Returns references to the stored key and the value for `key`, or
    /// `None` if the key is absent.
    pub fn get_key_value(&self, key: &K) -> (r: Option<(&K, &V)>)
        ensures
            r is Some <==> self@.contains_key(key@),
            r matches Some(kv) ==> kv.0@ == key@ && kv.1@ == self@[key@],
    {
        proof {
            use_type_invariant(self);
            lemma_sorted_entries_map::<K, V::V>(self.entries());
        }
        match self.find_idx(key) {
            Some(i) => {
                proof {
                    assert(self.entries()[i as int].0 == self.keys@[i as int]@);
                    assert(self.entries()[i as int].1 == self.vals@[i as int]@);
                }
                Some((&self.keys[i], &self.vals[i]))
            },
            None => None,
        }
    }

    /// Returns `true` if the map contains an entry for `key`.
    pub fn contains_key(&self, key: &K) -> (r: bool)
        ensures
            r == self@.contains_key(key@),
    {
        proof {
            use_type_invariant(self);
            lemma_sorted_entries_map::<K, V::V>(self.entries());
        }
        self.find_idx(key).is_some()
    }

    /// Returns the keys, in increasing order.
    pub fn keys(&self) -> (r: &[K])
        ensures
            views_of(r@) == keys_of(self.entries()),
            strictly_sorted::<K>(keys_of(self.entries())),
            self@ == pairs_to_map(self.entries()),
    {
        proof {
            use_type_invariant(self);
            assert(views_of(self.keys@) =~= keys_of(self.entries()));
        }
        self.keys.as_slice()
    }

    /// Returns the values, in the increasing order of their keys.
    pub fn values(&self) -> (r: &[V])
        ensures
            views_of(r@) == values_of(self.entries()),
            strictly_sorted::<K>(keys_of(self.entries())),
            self@ == pairs_to_map(self.entries()),
    {
        proof {
            use_type_invariant(self);
            assert(views_of(self.vals@) =~= values_of(self.entries()));
        }
        self.vals.as_slice()
    }

    /// Returns the `(key, value)` pairs, in increasing key order.
    pub fn items(&self) -> (r: Vec<(&K, &V)>)
        ensures
            r.len() == self.entries().len(),
            forall|i: int|
                0 <= i < r.len() ==> (#[trigger] r@[i]).0@ == self.entries()[i].0 && r@[i].1@
                    == self.entries()[i].1,
            strictly_sorted::<K>(keys_of(self.entries())),
            self@ == pairs_to_map(self.entries()),
    {
        proof {
            use_type_invariant(self);
        }
        let n = self.keys.len();
        let mut r: Vec<(&K, &V)> = Vec::with_capacity(n);
        let mut i: usize = 0;
        while i < n
            invariant
                n == self.keys.len(),
                n == self.vals.len(),
                n == self.entries().len(),
                i <= n,
                r.len() == i,
                forall|t: int|
                    0 <= t < i ==> (#[trigger] r@[t]).0@ == self.entries()[t].0 && r@[t].1@
                        == self.entries()[t].1,
            decreases n - i,
        {
            r.push((&self.keys[i], &self.vals[i]));
            i = i + 1;
        }
        r
    }

    /// Returns owned copies of the entries, in increasing key order.
    fn cloned_entries(&self) -> (r: Vec<(K, V)>)
        ensures
            entries_view(r@) == self.entries(),
    {
        proof {
            use_type_invariant(self);
        }
        let n = self.keys.len();
        let mut r: Vec<(K, V)> = Vec::with_capacity(n);
        let mut i: usize = 0;
        while i < n
            invariant
                n == self.keys.len(),
                n == self.vals.len(),
                n == self.entries().len(),
                i <= n,
                entries_view(r@) == self.entries().take(i as int),
            decreases n - i,
        {
            let k = self.keys[i].clone_value();
            let v = self.vals[i].clone_value();
            let ghost old_r = r@;
            r.push((k, v));
            proof {
                assert(entries_view(r@) =~= entries_view(old_r).push((k@, v@)));
                assert(self.entries()[i as int] == (self.keys@[i as int]@, self.vals@[i as int]@));
                assert(entries_view(r@) =~= self.entries().take(i + 1));
            }
            i = i + 1;
        }
        proof {
            assert(self.entries().take(n as int) =~= self.entries());
        }
        r
    }

    /// Consumes the map, returning its `(key, value)` pairs in increasing
    /// key order.
    pub fn into_pairs(self) -> (r: Vec<(K, V)>)
        ensures
            entries_view(r@) == self.entries(),
            strictly_sorted::<K>(keys_of(self.entries())),
            self@ == pairs_to_map(self.entries()),
    {
        proof {
            use_type_invariant(&self);
        }
        self.cloned_entries()
    }
}

impl<K: MapKey, V: MapValue> FrozenMap<K, V> {
    /// Constructs a map that binds each of `keys` to `value`.
    pub fn fromkeys(keys: Vec<K>, value: V) -> (r: Self)
        requires
            fits_in_table(keys.len() as int),
        ensures
            r@.dom() == views_of(keys@).to_set(),
            forall|k: K::V| #[trigger] r@.contains_key(k) ==> r@[k] == value@,
    {
        let n = keys.len();
        let mut pairs: Vec<(K, V)> = Vec::with_capacity(n);
        let mut i: usize = 0;
        while i < n
            invariant
                n == keys.len(),
                i <= n,
                pairs.len() == i,
                forall|t: int|
                    0 <= t < i ==> #[trigger] entries_view(pairs@)[t] == (keys@[t]@, value@),
            decreases n - i,
        {
            let k = keys[i].clone_value();
            let v = value.clone_value();
            let ghost old_pairs = pairs@;
            pairs.push((k, v));
            proof {
                assert(entries_view(pairs@) =~= entries_view(old_pairs).push((k@, v@)));
            }
            i = i + 1;
        }
        let ghost es = entries_view(pairs@);
        let r = Self::new(pairs);
        proof {
            assert forall|k: K::V| #[trigger] r@.contains_key(k) implies r@[k] == value@ by {
                lemma_pairs_to_map_value_from(es, k);
            }
            assert forall|k: K::V| r@.dom().contains(k) <==> views_of(keys@).to_set().contains(k) by {
                lemma_pairs_to_map_dom(es, k);
                if has_key(es, k) {
                    let t = choose|t: int| 0 <= t < es.len() && (#[trigger] es[t]).0 == k;
                    assert(views_of(keys@)[t] == k);
                }
                if views_of(keys@).contains(k) {
                    let t = choose|t: int| 0 <= t < n && views_of(keys@)[t] == k;
                    assert(es[t].0 == k);
                }
            }
            assert(r@.dom() =~= views_of(keys@).to_set());
        }
        r
    }

    /// Constructs a map from `(key, value)` entries; the same as [`FrozenMap::new`].
    pub fn from_iter(entries: Vec<(K, V)>) -> (map: Self)
        requires
            fits_in_table(entries.len() as int),
        ensures
            map@ == pairs_to_map(entries_view(entries@)),
    {
        Self::new(entries)
    }
}

impl<K: MapKey, V: MapValue> FrozenMap<K, V> {
    /// Whether the two maps hold the same entries, compared element-wise
    /// over the sorted keys and values.
    pub(crate) fn same_entries(&self, other: &Self) -> (r: bool)
        ensures
            r == (self@ == other@),
    {
        proof {
            use_type_invariant(self);
            use_type_invariant(other);
        }
        let ghost a = self.entries();
        let ghost b = other.entries();
        if self.keys.len() != other.keys.len() {
            proof {
                lemma_sorted_entries_map::<K, V::V>(a);
                lemma_sorted_entries_map::<K, V::V>(b);
            }
            return false;
        }
        let n = self.keys.len();
        let mut i: usize = 0;
        while i < n
            invariant
                a == self.entries(),
                b == other.entries(),
                n == self.keys.len(),
                n == other.keys.len(),
                n == self.vals.len(),
                n == other.vals.len(),
                a.len() == n,
                b.len() == n,
                strictly_sorted::<K>(keys_of(a)),
                strictly_sorted::<K>(keys_of(b)),
                i <= n,
                forall|t: int| 0 <= t < i ==> #[trigger] a[t] == b[t],
            decreases n - i,
        {
            proof {
                assert(a[i as int] == (self.keys@[i as int]@, self.vals@[i as int]@));
                assert(b[i as int] == (other.keys@[i as int]@, other.vals@[i as int]@));
            }
            if !self.keys[i].value_eq(&other.keys[i]) || !self.vals[i].value_eq(&other.vals[i]) {
                proof {
                    if self@ == other@ {
                        lemma_sorted_entries_unique::<K, V::V>(a, b);
                    }
                }
                return false;
            }
            i = i + 1;
        }
        proof {
            assert(a =~= b);
        }
        true
    }

    /// A copy of the map, with the same entries, hashes and probe table.
    pub(crate) fn duplicate(&self) -> (r: Self)
        ensures
            r@ == self@,
            r.entries() == self.entries(),
            r.stored_hash() == self.stored_hash(),
            r.key_hashes() == self.key_hashes(),
            r.value_hashes() == self.value_hashes(),
            r.key_hash_records() == self.key_hash_records(),
            r.value_hash_records() == self.value_hash_records(),
    {
        proof {
            use_type_invariant(self);
        }
        let n = self.keys.len();
        let mut keys: Vec<K> = Vec::with_capacity(n);
        let mut vals: Vec<V> = Vec::with_capacity(n);
        let mut i: usize = 0;
        while i < n
            invariant
                n == self.keys.len(),
                n == self.vals.len(),
                i <= n,
                keys.len() == i,
                vals.len() == i,
                forall|t: int| 0 <= t < i ==> (#[trigger] keys@[t])@ == self.keys@[t]@,
                forall|t: int| 0 <= t < i ==> (#[trigger] vals@[t])@ == self.vals@[t]@,
            decreases n - i,
        {
            keys.push(self.keys[i].clone_value());
            vals.push(self.vals[i].clone_value());
            i = i + 1;
        }
        let cap = self.table.len();
        let mut table: Vec<Slot> = Vec::with_capacity(cap);
        let mut s: usize = 0;
        while s < cap
            invariant
                cap == self.table.len(),
                s <= cap,
                table@ == self.table@.take(s as int),
            decreases cap - s,
        {
            table.push(self.table[s]);
            proof {
                assert(table@ =~= self.table@.take(s + 1));
            }
            s = s + 1;
        }
        proof {
            assert(table@ =~= self.table@);
            assert(Seq::new(n as nat, |t: int| (keys@[t]@, vals@[t]@)) =~= self.entries());
        }
        let r = FrozenMap {
            keys,
            vals,
            table,
            hash: self.hash,
            key_hashes: Ghost(self.key_hashes@),
            val_hashes: Ghost(self.val_hashes@),
            key_records: Ghost(self.key_records@),
            val_records: Ghost(self.val_records@),
        };
        proof {
            assert(r.entries() =~= self.entries());
        }
        r
    }
}

/// Which entries a filtered copy of a map keeps.
enum KeyFilter<'a, K: MapKey, V: MapValue> {
    /// The entries whose key differs from this one.
    Except(&'a K),
    /// The entries whose key this map binds.
    In(&'a FrozenMap<K, V>),
    /// The entries whose key this map does not bind.
    NotIn(&'a FrozenMap<K, V>),
}

impl<'a, K: MapKey, V: MapValue> KeyFilter<'a, K, V> {
    spec fn keeps(&self, k: K::V) -> bool {
        match self {
            KeyFilter::Except(x) => k != x@,
            KeyFilter::In(m) => m@.contains_key(k),
            KeyFilter::NotIn(m) => !m@.contains_key(k),
        }
    }

    fn keeps_key(&self, k: &K) -> (r: bool)
        ensures
            r == self.keeps(k@),
    {
        match self {
            KeyFilter::Except(x) => !k.value_eq(x),
            KeyFilter::In(m) => m.contains_key(k),
            KeyFilter::NotIn(m) => !m.contains_key(k),
        }
    }
}

impl<K: MapKey, V: MapValue> FrozenMap<K, V> {
    /// Returns owned copies of the entries that `filter` keeps, in
    /// increasing key order.
    fn filtered_entries(&self, filter: &KeyFilter<K, V>, Ghost(keep): Ghost<spec_fn(K::V) -> bool>) -> (r: Vec<(K, V)>)
        requires
            forall|k: K::V| #[trigger] keep(k) == filter.keeps(k),
        ensures
            entries_view(r@) == self.entries().filter(|p: (K::V, V::V)| keep(p.0)),
    {
        proof {
            use_type_invariant(self);
        }
        let ghost pred = |p: (K::V, V::V)| keep(p.0);
        let ghost es = self.entries();
        let n = self.keys.len();
        let mut r: Vec<(K, V)> = Vec::new();
        let mut i: usize = 0;
        proof {
            reveal(Seq::filter);
            assert(es.take(0).filter(pred) =~= Seq::<(K::V, V::V)>::empty());
        }
        while i < n
            invariant
                es == self.entries(),
                n == self.keys.len(),
                n == self.vals.len(),
                n == es.len(),
                i <= n,
                forall|k: K::V| #[trigger] keep(k) == filter.keeps(k),
                pred == (|p: (K::V, V::V)| keep(p.0)),
                entries_view(r@) == es.take(i as int).filter(pred),
            decreases n - i,
        {
            proof {
                reveal(Seq::filter);
                assert(es.take(i + 1).drop_last() =~= es.take(i as int));
                assert(es.take(i + 1).last() == es[i as int]);
                assert(es[i as int] == (self.keys@[i as int]@, self.vals@[i as int]@));
            }
            if filter.keeps_key(&self.keys[i]) {
                let k = self.keys[i].clone_value();
                let v = self.vals[i].clone_value();
                let ghost old_r = r@;
                r.push((k, v));
                proof {
                    assert(entries_view(r@) =~= entries_view(old_r).push((k@, v@)));
                }
            }
            i = i + 1;
        }
        proof {
            assert(es.take(n as int) =~= es);
        }
        r
    }

    /// Returns the merge of `self` and `other`; on a key present in both,
    /// the value of `other` wins.
    pub fn merge(&self, other: &Self) -> (r: Self)
        requires
            fits_in_table(self@.len() + other@.len() as int),
        ensures
            r@ == self@.union_prefer_right(other@),
    {
        proof {
            use_type_invariant(self);
            use_type_invariant(other);
            lemma_sorted_entries_map::<K, V::V>(self.entries());
            lemma_sorted_entries_map::<K, V::V>(other.entries());
        }
        let mut pairs = self.cloned_entries();
        let mut rest = other.cloned_entries();
        let ghost a = pairs@;
        pairs.append(&mut rest);
        proof {
            assert(entries_view(pairs@) =~= self.entries() + other.entries());
            lemma_pairs_to_map_append(self.entries(), other.entries());
        }
        Self::new(pairs)
    }

    /// Returns a new map with `key` bound to `value`, replacing any value
    /// that `key` had.
    pub fn with(&self, key: K, value: V) -> (r: Self)
        requires
            fits_in_table(self@.len() + 1int),
        ensures
            r@ == self@.insert(key@, value@),
    {
        proof {
            use_type_invariant(self);
            lemma_sorted_entries_map::<K, V::V>(self.entries());
        }
        let mut pairs = self.cloned_entries();
        let ghost kv = key@;
        let ghost vv = value@;
        pairs.push((key, value));
        proof {
            assert(entries_view(pairs@) =~= self.entries().push((kv, vv)));
            assert(self.entries().push((kv, vv)).drop_last() =~= self.entries());
        }
        Self::new(pairs)
    }

    /// Returns a new map without `key`.
    pub fn without(&self, key: &K) -> (r: Self)
        ensures
            r@ == self@.remove(key@),
    {
        proof {
            use_type_invariant(self);
        }
        let ghost kv = key@;
        let ghost keep = |k: K::V| k != kv;
        let filter = KeyFilter::Except(key);
        let pairs = self.filtered_entries(&filter, Ghost(keep));
        proof {
            lemma_pairs_to_map_filter(self.entries(), keep);
            assert(self@.restrict(Set::new(keep)) =~= self@.remove(kv));
            lemma_sorted_entries_map::<K, V::V>(self.entries());
            lemma_pairs_to_map_len_le(self.entries().filter(|p: (K::V, V::V)| keep(p.0)));
            self.entries().lemma_filter_len(|p: (K::V, V::V)| keep(p.0));
        }
        Self::new(pairs)
    }

    /// Returns a new map of the entries of `self` whose keys `other` binds.
    pub fn intersection(&self, other: &Self) -> (r: Self)
        ensures
            r@ == self@.restrict(other@.dom()),
    {
        proof {
            use_type_invariant(self);
        }
        let ghost keep = |k: K::V| other@.contains_key(k);
        let filter = KeyFilter::In(other);
        let pairs = self.filtered_entries(&filter, Ghost(keep));
        proof {
            lemma_pairs_to_map_filter(self.entries(), keep);
            assert(self@.restrict(Set::new(keep)) =~= self@.restrict(other@.dom()));
            self.entries().lemma_filter_len(|p: (K::V, V::V)| keep(p.0));
        }
        Self::new(pairs)
    }

    /// Returns a new map with the keys of both maps; on a key present in
    /// both, the value of `self` wins.
    pub fn union(&self, other: &Self) -> (r: Self)
        requires
            fits_in_table(self@.len() + other@.len() as int),
        ensures
            r@ == other@.union_prefer_right(self@),
    {
        proof {
            use_type_invariant(self);
            use_type_invariant(other);
            lemma_sorted_entries_map::<K, V::V>(self.entries());
            lemma_sorted_entries_map::<K, V::V>(other.entries());
        }
        let mut pairs = other.cloned_entries();
        let mut rest = self.cloned_entries();
        pairs.append(&mut rest);
        proof {
            assert(entries_view(pairs@) =~= other.entries() + self.entries());
            lemma_pairs_to_map_append(other.entries(), self.entries());
        }
        Self::new(pairs)
    }

    /// Returns a new map of the entries of `self` whose keys `other` does
    /// not bind.
    pub fn difference(&self, other: &Self) -> (r: Self)
        ensures
            r@ == self@.remove_keys(other@.dom()),
    {
        proof {
            use_type_invariant(self);
        }
        let ghost keep = |k: K::V| !other@.contains_key(k);
        let filter = KeyFilter::NotIn(other);
        let pairs = self.filtered_entries(&filter, Ghost(keep));
        proof {
            lemma_pairs_to_map_filter(self.entries(), keep);
            assert(self@.restrict(Set::new(keep)) =~= self@.remove_keys(other@.dom()));
            self.entries().lemma_filter_len(|p: (K::V, V::V)| keep(p.0));
        }
        Self::new(pairs)
    }
}

/// Each element of `s` taken by its view.
pub open spec fn views_of<T: View>(s: Seq<T>) -> Seq<T::V> {
    s.map_values(|x: T| x@)
}

/// The values of `s`.
pub open spec fn values_of<KV, VV>(s: Seq<(KV, VV)>) -> Seq<VV> {
    s.map_values(|p: (KV, VV)| p.1)
}

} // verus!
