//! Laws of construction that span more than one call.

use super::pairs::{has_key, keys_distinct, lemma_pairs_to_map_distinct, lemma_pairs_to_map_dom, pairs_to_map};
use super::fmt::{debug_items, entry_text};
use super::key::MapValue;
use super::text::{all_plain, quoted};
use vstd::prelude::*;

verus! {

/// Building a map from the same entries, with distinct keys, in any order
/// gives the same map: insertion order does not matter.
pub proof fn law_entry_order_irrelevant<KV, VV>(s: Seq<(KV, VV)>, t: Seq<(KV, VV)>)
    requires
        keys_distinct(s),
        keys_distinct(t),
        s.to_set() == t.to_set(),
    ensures
        pairs_to_map(s) == pairs_to_map(t),
{
    lemma_pairs_to_map_distinct(s);
    lemma_pairs_to_map_distinct(t);
    assert forall|k: KV| #[trigger] pairs_to_map(s).contains_key(k) == pairs_to_map(t).contains_key(k) by {
        lemma_pairs_to_map_dom(s, k);
        lemma_pairs_to_map_dom(t, k);
        if has_key(s, k) {
            let i = choose|i: int| 0 <= i < s.len() && (#[trigger] s[i]).0 == k;
            assert(s.to_set().contains(s[i]));
            let j = choose|j: int| 0 <= j < t.len() && t[j] == s[i];
            assert(t[j].0 == k);
        }
        if has_key(t, k) {
            let j = choose|j: int| 0 <= j < t.len() && (#[trigger] t[j]).0 == k;
            assert(t.to_set().contains(t[j]));
            let i = choose|i: int| 0 <= i < s.len() && s[i] == t[j];
            assert(s[i].0 == k);
        }
    }
    assert forall|k: KV| #[trigger] pairs_to_map(s).contains_key(k) implies pairs_to_map(s)[k] == pairs_to_map(t)[k] by {
        lemma_pairs_to_map_dom(s, k);
        let i = choose|i: int| 0 <= i < s.len() && (#[trigger] s[i]).0 == k;
        assert(s.to_set().contains(s[i]));
        let j = choose|j: int| 0 <= j < t.len() && t[j] == s[i];
        assert(pairs_to_map(s)[s[i].0] == s[i].1);
        assert(pairs_to_map(t)[t[j].0] == t[j].1);
    }
    assert(pairs_to_map(s) =~= pairs_to_map(t));
}

/// In the `{:?}` text of a map, an entry whose string key has only plain
/// characters (printable ASCII other than quotes and backslash) shows that
/// key unchanged between double quotes, followed by `: ` and the value's
/// text.
pub proof fn law_plain_key_debug_text<V: MapValue>(es: Seq<(Seq<char>, V::V)>, i: int)
    requires
        0 <= i < es.len(),
        all_plain(es[i].0),
    ensures
        debug_items::<String, V>(es)[i] == quoted(es[i].0) + seq![':', ' '] + V::debug_text(es[i].1),
{
    assert(debug_items::<String, V>(es)[i] == entry_text(
        <String as MapValue>::debug_text(es[i].0),
        V::debug_text(es[i].1),
    ));
}

/// A string value with only plain characters has, as its `{:?}` text, the
/// string unchanged between double quotes.
pub proof fn law_plain_string_debug_text(s: Seq<char>)
    requires
        all_plain(s),
    ensures
        <String as MapValue>::debug_text(s) == seq!['"'] + s + seq!['"'],
        forall|i: int| 0 <= i < s.len() ==> <String as MapValue>::debug_text(s)[i + 1] == s[i],
{
}

} // verus!
