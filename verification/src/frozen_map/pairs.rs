//! Sequences of entries and the maps they describe.
//!
//! A sequence of `(key, value)` entries describes the map in which every
//! key is bound to the value of its last entry ("last write wins").

use super::key::MapKey;
use vstd::prelude::*;

verus! {

/// The map described by `s`: each key is bound to the value of its last entry.
pub open spec fn pairs_to_map<KV, VV>(s: Seq<(KV, VV)>) -> Map<KV, VV>
    decreases s.len(),
{
    if s.len() == 0 {
        Map::empty()
    } else {
        pairs_to_map(s.drop_last()).insert(s.last().0, s.last().1)
    }
}

/// The entries of `s`, each key and value taken by its view.
pub open spec fn entries_view<K: View, V: View>(s: Seq<(K, V)>) -> Seq<(K::V, V::V)> {
    s.map_values(|p: (K, V)| (p.0@, p.1@))
}

/// The keys of `s`.
pub open spec fn keys_of<KV, VV>(s: Seq<(KV, VV)>) -> Seq<KV> {
    s.map_values(|p: (KV, VV)| p.0)
}

/// The keys of `s` are strictly increasing.
pub open spec fn strictly_sorted<K: MapKey>(s: Seq<K::V>) -> bool {
    forall|i: int, j: int| 0 <= i < j < s.len() ==> K::key_lt(#[trigger] s[i], #[trigger] s[j])
}

/// Whether some entry of `s` has key `k`.
pub open spec fn has_key<KV, VV>(s: Seq<(KV, VV)>, k: KV) -> bool {
    exists|i: int| 0 <= i < s.len() && (#[trigger] s[i]).0 == k
}

/// The map of `s` binds exactly the keys of the entries of `s`.
pub proof fn lemma_pairs_to_map_dom<KV, VV>(s: Seq<(KV, VV)>, k: KV)
    ensures
        pairs_to_map(s).contains_key(k) <==> has_key(s, k),
        pairs_to_map(s).dom().finite(),
    decreases s.len(),
{
    if s.len() > 0 {
        let t = s.drop_last();
        lemma_pairs_to_map_dom(t, k);
        if has_key(t, k) {
            let i = choose|i: int| 0 <= i < t.len() && (#[trigger] t[i]).0 == k;
            assert(s[i] == t[i]);
        }
        if has_key(s, k) && s.last().0 != k {
            let i = choose|i: int| 0 <= i < s.len() && (#[trigger] s[i]).0 == k;
            assert(t[i] == s[i]);
        }
        if s.last().0 == k {
            assert(s[s.len() - 1] == s.last());
        }
    }
}

/// A key that occurs in no later entry is bound to the value of entry `i`.
pub proof fn lemma_pairs_to_map_last_write<KV, VV>(s: Seq<(KV, VV)>, i: int)
    requires
        0 <= i < s.len(),
        forall|j: int| i < j < s.len() ==> (#[trigger] s[j]).0 != s[i].0,
    ensures
        pairs_to_map(s).contains_key(s[i].0),
        pairs_to_map(s)[s[i].0] == s[i].1,
    decreases s.len(),
{
    if i < s.len() - 1 {
        let t = s.drop_last();
        assert forall|j: int| i < j < t.len() implies (#[trigger] t[j]).0 != t[i].0 by {
            assert(t[j] == s[j]);
        }
        lemma_pairs_to_map_last_write(t, i);
        assert(s[s.len() - 1] == s.last());
    }
}

/// The map of a concatenation is the map of the second part laid over the
/// map of the first.
pub proof fn lemma_pairs_to_map_append<KV, VV>(a: Seq<(KV, VV)>, b: Seq<(KV, VV)>)
    ensures
        pairs_to_map(a + b) == pairs_to_map(a).union_prefer_right(pairs_to_map(b)),
    decreases b.len(),
{
    if b.len() == 0 {
        assert(a + b =~= a);
        assert(pairs_to_map(a).union_prefer_right(pairs_to_map(b)) =~= pairs_to_map(a));
    } else {
        lemma_pairs_to_map_append(a, b.drop_last());
        assert((a + b).drop_last() =~= a + b.drop_last());
        assert((a + b).last() == b.last());
        assert(pairs_to_map(a + b) =~= pairs_to_map(a).union_prefer_right(pairs_to_map(b)));
    }
}

/// Keeping only the entries whose key satisfies `keep` restricts the map to
/// those keys.
pub proof fn lemma_pairs_to_map_filter<KV, VV>(s: Seq<(KV, VV)>, keep: spec_fn(KV) -> bool)
    ensures
        pairs_to_map(s.filter(|p: (KV, VV)| keep(p.0))) == pairs_to_map(s).restrict(
            Set::new(|k: KV| keep(k)),
        ),
    decreases s.len(),
{
    let pred = |p: (KV, VV)| keep(p.0);
    if s.len() == 0 {
        assert(s.filter(pred) =~= Seq::<(KV, VV)>::empty());
        assert(pairs_to_map(s).restrict(Set::new(|k: KV| keep(k))) =~= Map::empty());
    } else {
        lemma_pairs_to_map_filter(s.drop_last(), keep);
        reveal(Seq::filter);
        assert(s.filter(pred) == {
            let sub = s.drop_last().filter(pred);
            if pred(s.last()) { sub.push(s.last()) } else { sub }
        });
        if pred(s.last()) {
            assert(s.drop_last().filter(pred).push(s.last()).drop_last() =~= s.drop_last().filter(pred));
        }
        assert(pairs_to_map(s.filter(pred)) =~= pairs_to_map(s).restrict(Set::new(|k: KV| keep(k))));
    }
}

/// A key bound in the map of `s` is bound to the value of some entry of `s`
/// with that key.
pub proof fn lemma_pairs_to_map_value_from<KV, VV>(s: Seq<(KV, VV)>, k: KV)
    requires
        pairs_to_map(s).contains_key(k),
    ensures
        exists|i: int| 0 <= i < s.len() && #[trigger] s[i] == (k, pairs_to_map(s)[k]),
    decreases s.len(),
{
    let t = s.drop_last();
    if s.last().0 == k {
        assert(s[s.len() - 1] == s.last());
    } else {
        lemma_pairs_to_map_value_from(t, k);
        let i = choose|i: int| 0 <= i < t.len() && #[trigger] t[i] == (k, pairs_to_map(t)[k]);
        assert(s[i] == t[i]);
    }
}

/// No two entries of `s` share a key.
pub open spec fn keys_distinct<KV, VV>(s: Seq<(KV, VV)>) -> bool {
    forall|i: int, j: int| 0 <= i < j < s.len() ==> (#[trigger] s[i]).0 != (#[trigger] s[j]).0
}

/// A map described by `s` binds at most as many keys as `s` has entries.
pub proof fn lemma_pairs_to_map_len_le<KV, VV>(s: Seq<(KV, VV)>)
    ensures
        pairs_to_map(s).len() <= s.len(),
    decreases s.len(),
{
    if s.len() > 0 {
        let t = s.drop_last();
        lemma_pairs_to_map_len_le(t);
        lemma_pairs_to_map_dom(t, s.last().0);
        if pairs_to_map(t).contains_key(s.last().0) {
            assert(pairs_to_map(t).dom().insert(s.last().0) =~= pairs_to_map(t).dom());
        }
    }
}

/// With distinct keys, the map binds exactly one key per entry, each to the
/// value of its entry.
pub proof fn lemma_pairs_to_map_distinct<KV, VV>(s: Seq<(KV, VV)>)
    requires
        keys_distinct(s),
    ensures
        pairs_to_map(s).len() == s.len(),
        forall|i: int|
            0 <= i < s.len() ==> pairs_to_map(s).contains_key(#[trigger] s[i].0) && pairs_to_map(
                s,
            )[s[i].0] == s[i].1,
    decreases s.len(),
{
    if s.len() > 0 {
        let t = s.drop_last();
        assert forall|i: int, j: int| 0 <= i < j < t.len() implies (#[trigger] t[i]).0 != (
        #[trigger] t[j]).0 by {
            assert(t[i] == s[i] && t[j] == s[j]);
        }
        lemma_pairs_to_map_distinct(t);
        lemma_pairs_to_map_dom(t, s.last().0);
        if has_key(t, s.last().0) {
            let i = choose|i: int| 0 <= i < t.len() && (#[trigger] t[i]).0 == s.last().0;
            assert(s[i] == t[i]);
            assert(s[s.len() - 1] == s.last());
        }
        assert forall|i: int| 0 <= i < s.len() implies pairs_to_map(s).contains_key(
            #[trigger] s[i].0,
        ) && pairs_to_map(s)[s[i].0] == s[i].1 by {
            if i < s.len() - 1 {
                assert(s[i] == t[i]);
                assert(s[s.len() - 1] == s.last());
            } else {
                assert(s[i] == s.last());
            }
        }
    }
}

/// Strictly increasing keys are distinct.
pub proof fn lemma_sorted_distinct<K: MapKey, VV>(s: Seq<(K::V, VV)>)
    requires
        strictly_sorted::<K>(keys_of(s)),
    ensures
        keys_distinct(s),
{
    assert forall|i: int, j: int| 0 <= i < j < s.len() implies (#[trigger] s[i]).0 != (
    #[trigger] s[j]).0 by {
        assert(keys_of(s)[i] == s[i].0 && keys_of(s)[j] == s[j].0);
        K::lemma_key_lt_irreflexive(s[i].0);
    }
}

/// Two sequences of entries with strictly increasing keys that describe the
/// same map are equal: the sorted order of a map's entries is unique.
pub proof fn lemma_sorted_entries_unique<K: MapKey, VV>(s: Seq<(K::V, VV)>, t: Seq<(K::V, VV)>)
    requires
        strictly_sorted::<K>(keys_of(s)),
        strictly_sorted::<K>(keys_of(t)),
        pairs_to_map(s) == pairs_to_map(t),
    ensures
        s == t,
    decreases s.len(),
{
    lemma_sorted_distinct::<K, VV>(s);
    lemma_sorted_distinct::<K, VV>(t);
    lemma_pairs_to_map_distinct(s);
    lemma_pairs_to_map_distinct(t);
    if s.len() == 0 {
        assert(s =~= t);
    } else {
        let n = s.len() as int;
        let ks = s[n - 1].0;
        let kt = t[n - 1].0;
        lemma_pairs_to_map_dom(t, ks);
        lemma_pairs_to_map_dom(s, kt);
        let j = choose|j: int| 0 <= j < t.len() && (#[trigger] t[j]).0 == ks;
        let i = choose|i: int| 0 <= i < s.len() && (#[trigger] s[i]).0 == kt;
        if ks != kt {
            assert(keys_of(t)[j] == t[j].0 && keys_of(t)[n - 1] == t[n - 1].0);
            assert(keys_of(s)[i] == s[i].0 && keys_of(s)[n - 1] == s[n - 1].0);
            K::lemma_key_lt_transitive(ks, kt, ks);
            K::lemma_key_lt_irreflexive(ks);
        }
        let sd = s.drop_last();
        let td = t.drop_last();
        assert(s.last() == s[n - 1] && t.last() == t[n - 1]);
        lemma_pairs_to_map_dom(sd, ks);
        lemma_pairs_to_map_dom(td, ks);
        if has_key(sd, ks) {
            let u = choose|u: int| 0 <= u < sd.len() && (#[trigger] sd[u]).0 == ks;
            assert(sd[u] == s[u]);
        }
        if has_key(td, ks) {
            let u = choose|u: int| 0 <= u < td.len() && (#[trigger] td[u]).0 == ks;
            assert(td[u] == t[u]);
        }
        assert(pairs_to_map(sd) =~= pairs_to_map(s).remove(ks));
        assert(pairs_to_map(td) =~= pairs_to_map(t).remove(ks));
        assert forall|a: int, b: int| 0 <= a < b < keys_of(sd).len() implies K::key_lt(
            #[trigger] keys_of(sd)[a],
            #[trigger] keys_of(sd)[b],
        ) by {
            assert(keys_of(sd)[a] == keys_of(s)[a] && keys_of(sd)[b] == keys_of(s)[b]);
        }
        assert forall|a: int, b: int| 0 <= a < b < keys_of(td).len() implies K::key_lt(
            #[trigger] keys_of(td)[a],
            #[trigger] keys_of(td)[b],
        ) by {
            assert(keys_of(td)[a] == keys_of(t)[a] && keys_of(td)[b] == keys_of(t)[b]);
        }
        lemma_sorted_entries_unique::<K, VV>(sd, td);
        assert(s =~= sd.push(s.last()));
        assert(t =~= td.push(t.last()));
    }
}

} // verus!
