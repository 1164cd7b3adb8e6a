//! Sorting entries by key with last-write-wins deduplication.
//!
//! Entries are sorted as runs of indices into the entry vector: a merge
//! sort whose merge step, on equal keys, keeps the entry from the later run.
//! The result lists, in increasing key order, the last entry of each key.

use super::key::{KeyOrder, MapKey, MapValue};
use super::pairs::{entries_view, has_key, lemma_pairs_to_map_append, lemma_pairs_to_map_dom, pairs_to_map};
use vstd::prelude::*;

verus! {

/// The entries that a run of indices picks out of `es`.
pub open spec fn run_entries<KV, VV>(es: Seq<(KV, VV)>, run: Seq<usize>) -> Seq<(KV, VV)> {
    run.map_values(|i: usize| es[i as int])
}

/// The keys that `run` picks out of `es` are strictly increasing.
pub open spec fn run_sorted<K: MapKey, VV>(es: Seq<(K::V, VV)>, run: Seq<usize>) -> bool {
    forall|p: int, q: int|
        0 <= p < q < run.len() ==> K::key_lt(
            #[trigger] es[run[p] as int].0,
            #[trigger] es[run[q] as int].0,
        )
}

/// Every index of `run` holds the last entry of its key before `hi`.
pub open spec fn run_last<KV, VV>(es: Seq<(KV, VV)>, run: Seq<usize>, hi: int) -> bool {
    forall|t: int, j: int|
        0 <= t < run.len() && run[t] < j < hi ==> (#[trigger] es[j]).0 != es[(#[trigger] run[t]) as int].0
}

/// Every index of `run` lies in `lo..hi`.
pub open spec fn run_within(run: Seq<usize>, lo: int, hi: int) -> bool {
    forall|t: int| 0 <= t < run.len() ==> lo <= #[trigger] run[t] < hi
}

proof fn lemma_pairs_to_map_push<KV, VV>(s: Seq<(KV, VV)>, e: (KV, VV))
    ensures
        pairs_to_map(s.push(e)) == pairs_to_map(s).insert(e.0, e.1),
{
    assert(s.push(e).drop_last() =~= s);
}

proof fn lemma_run_entries_push<KV, VV>(es: Seq<(KV, VV)>, run: Seq<usize>, x: usize)
    ensures
        run_entries(es, run.push(x)) == run_entries(es, run).push(es[x as int]),
{
    assert(run_entries(es, run.push(x)) =~= run_entries(es, run).push(es[x as int]));
}

proof fn lemma_take_push<A>(s: Seq<A>, i: int)
    requires
        0 <= i < s.len(),
    ensures
        s.take(i + 1) == s.take(i).push(s[i]),
{
    assert(s.take(i + 1) =~= s.take(i).push(s[i]));
}

proof fn lemma_union_insert_left<KV, VV>(x: Map<KV, VV>, y: Map<KV, VV>, k: KV, v: VV)
    requires
        !y.contains_key(k),
    ensures
        x.insert(k, v).union_prefer_right(y) == x.union_prefer_right(y).insert(k, v),
{
    assert(x.insert(k, v).union_prefer_right(y) =~= x.union_prefer_right(y).insert(k, v));
}

proof fn lemma_union_insert_right<KV, VV>(x: Map<KV, VV>, y: Map<KV, VV>, k: KV, v: VV)
    ensures
        x.union_prefer_right(y.insert(k, v)) == x.union_prefer_right(y).insert(k, v),
{
    assert(x.union_prefer_right(y.insert(k, v)) =~= x.union_prefer_right(y).insert(k, v));
}

proof fn lemma_union_insert_both<KV, VV>(x: Map<KV, VV>, y: Map<KV, VV>, k: KV, va: VV, vb: VV)
    ensures
        x.insert(k, va).union_prefer_right(y.insert(k, vb)) == x.union_prefer_right(y).insert(k, vb),
{
    assert(x.insert(k, va).union_prefer_right(y.insert(k, vb)) =~= x.union_prefer_right(y).insert(
        k,
        vb,
    ));
}

/// A key below every key of `run` is not bound in the map of `run`.
proof fn lemma_below_run_not_bound<K: MapKey, VV>(es: Seq<(K::V, VV)>, run: Seq<usize>, k: K::V)
    requires
        run_within(run, 0, es.len() as int),
        forall|p: int| 0 <= p < run.len() ==> K::key_lt(#[trigger] es[run[p] as int].0, k),
    ensures
        !pairs_to_map(run_entries(es, run)).contains_key(k),
{
    let s = run_entries(es, run);
    lemma_pairs_to_map_dom(s, k);
    if has_key(s, k) {
        let p = choose|p: int| 0 <= p < s.len() && (#[trigger] s[p]).0 == k;
        assert(s[p] == es[run[p] as int]);
        K::lemma_key_lt_irreflexive(k);
    }
}

/// Merges two sorted runs of `entries` into one; on equal keys the entry of
/// `b` is kept and that of `a` dropped.
pub fn merge_runs<K: MapKey, V: MapValue>(entries: &Vec<(K, V)>, a: &Vec<usize>, b: &Vec<usize>) -> (out: Vec<usize>)
    requires
        run_within(a@, 0, entries.len() as int),
        run_within(b@, 0, entries.len() as int),
        run_sorted::<K, V::V>(entries_view(entries@), a@),
        run_sorted::<K, V::V>(entries_view(entries@), b@),
    ensures
        forall|t: int| 0 <= t < out.len() ==> a@.contains(#[trigger] out@[t]) || b@.contains(out@[t]),
        forall|t: int|
            0 <= t < out.len() ==> b@.contains(#[trigger] out@[t]) || !pairs_to_map(
                run_entries(entries_view(entries@), b@),
            ).contains_key(entries_view(entries@)[out@[t] as int].0),
        run_sorted::<K, V::V>(entries_view(entries@), out@),
        pairs_to_map(run_entries(entries_view(entries@), out@)) == pairs_to_map(
            run_entries(entries_view(entries@), a@),
        ).union_prefer_right(pairs_to_map(run_entries(entries_view(entries@), b@))),
{
    let ghost es = entries_view(entries@);
    let ghost ea = run_entries(es, a@);
    let ghost eb = run_entries(es, b@);
    let mut out: Vec<usize> = Vec::new();
    let mut i: usize = 0;
    let mut j: usize = 0;
    proof {
        assert(ea.take(0) =~= Seq::<(K::V, V::V)>::empty());
        assert(eb.take(0) =~= Seq::<(K::V, V::V)>::empty());
        assert(run_entries(es, out@) =~= Seq::<(K::V, V::V)>::empty());
        assert(pairs_to_map(Seq::<(K::V, V::V)>::empty()).union_prefer_right(
            pairs_to_map(Seq::<(K::V, V::V)>::empty()),
        ) =~= Map::empty());
    }
    while i < a.len() || j < b.len()
        invariant
            es == entries_view(entries@),
            ea == run_entries(es, a@),
            eb == run_entries(es, b@),
            run_within(a@, 0, entries.len() as int),
            run_within(b@, 0, entries.len() as int),
            run_sorted::<K, V::V>(es, a@),
            run_sorted::<K, V::V>(es, b@),
            i <= a.len(),
            j <= b.len(),
            forall|t: int| 0 <= t < out.len() ==> a@.contains(#[trigger] out@[t]) || b@.contains(out@[t]),
            forall|t: int|
                0 <= t < out.len() ==> b@.contains(#[trigger] out@[t]) || !pairs_to_map(eb).contains_key(
                    es[out@[t] as int].0,
                ),
            run_within(out@, 0, entries.len() as int),
            run_sorted::<K, V::V>(es, out@),
            pairs_to_map(run_entries(es, out@)) == pairs_to_map(ea.take(i as int)).union_prefer_right(
                pairs_to_map(eb.take(j as int)),
            ),
            forall|p: int, q: int|
                0 <= p < out.len() && i <= q < a.len() ==> K::key_lt(
                    #[trigger] es[out@[p] as int].0,
                    #[trigger] es[a@[q] as int].0,
                ),
            forall|p: int, q: int|
                0 <= p < out.len() && j <= q < b.len() ==> K::key_lt(
                    #[trigger] es[out@[p] as int].0,
                    #[trigger] es[b@[q] as int].0,
                ),
        decreases a.len() + b.len() - i - j,
    {
        let ghost old_out = out@;
        let order = if i == a.len() {
            KeyOrder::Greater
        } else if j == b.len() {
            KeyOrder::Less
        } else {
            entries[a[i]].0.compare_key(&entries[b[j]].0)
        };
        if order == KeyOrder::Less {
            // a[i] comes first
            let x = a[i];
            proof {
                let k = es[x as int].0;
                assert(ea[i as int] == es[x as int]);
                lemma_take_push(ea, i as int);
                lemma_pairs_to_map_push(ea.take(i as int), es[x as int]);
                lemma_below_run_not_bound::<K, V::V>(es, old_out, k);
                lemma_pairs_to_map_dom(eb.take(j as int), k);
                lemma_pairs_to_map_dom(run_entries(es, old_out), k);
                lemma_union_insert_left(pairs_to_map(ea.take(i as int)), pairs_to_map(eb.take(j as int)), k, es[x as int].1);
                lemma_run_entries_push(es, old_out, x);
                lemma_pairs_to_map_push(run_entries(es, old_out), es[x as int]);
                assert forall|q: int| j <= q < b.len() implies K::key_lt(k, #[trigger] es[b@[q] as int].0) by {
                    if q > j {
                        K::lemma_key_lt_transitive(k, es[b@[j as int] as int].0, es[b@[q] as int].0);
                    }
                }
                lemma_pairs_to_map_dom(eb, k);
                if has_key(eb, k) {
                    let q = choose|q: int| 0 <= q < eb.len() && (#[trigger] eb[q]).0 == k;
                    assert(eb[q] == es[b@[q] as int]);
                    K::lemma_key_lt_irreflexive(k);
                    if q < j {
                        assert(eb.take(j as int)[q] == eb[q]);
                        assert(has_key(eb.take(j as int), k));
                    }
                }
                assert(!pairs_to_map(eb).contains_key(k));
            }
            out.push(x);
            i = i + 1;
            proof {
                assert forall|t: int| 0 <= t < out.len() implies b@.contains(#[trigger] out@[t]) || !pairs_to_map(eb).contains_key(es[out@[t] as int].0) by {
                    if t < out.len() - 1 {
                        assert(out@[t] == old_out[t]);
                    }
                }
                assert forall|t: int| 0 <= t < out.len() implies a@.contains(#[trigger] out@[t]) || b@.contains(out@[t]) by {
                    if t == out.len() - 1 {
                        assert(a@[i - 1] == out@[t]);
                    } else {
                        assert(out@[t] == old_out[t]);
                    }
                }
                assert(forall|t: int| 0 <= t < old_out.len() ==> out@[t] == old_out[t]);
            }
        } else if order == KeyOrder::Greater {
            // b[j] comes first
            let y = b[j];
            proof {
                let k = es[y as int].0;
                assert(eb[j as int] == es[y as int]);
                lemma_take_push(eb, j as int);
                lemma_pairs_to_map_push(eb.take(j as int), es[y as int]);
                lemma_union_insert_right(pairs_to_map(ea.take(i as int)), pairs_to_map(eb.take(j as int)), k, es[y as int].1);
                lemma_run_entries_push(es, old_out, y);
                lemma_pairs_to_map_push(run_entries(es, old_out), es[y as int]);
                assert forall|q: int| i <= q < a.len() implies K::key_lt(k, #[trigger] es[a@[q] as int].0) by {
                    if q > i {
                        K::lemma_key_lt_transitive(k, es[a@[i as int] as int].0, es[a@[q] as int].0);
                    }
                }
            }
            out.push(y);
            j = j + 1;
            proof {
                assert forall|t: int| 0 <= t < out.len() implies b@.contains(#[trigger] out@[t]) || !pairs_to_map(eb).contains_key(es[out@[t] as int].0) by {
                    if t < out.len() - 1 {
                        assert(out@[t] == old_out[t]);
                    } else {
                        assert(b@[j - 1] == out@[t]);
                    }
                }
                assert forall|t: int| 0 <= t < out.len() implies a@.contains(#[trigger] out@[t]) || b@.contains(out@[t]) by {
                    if t == out.len() - 1 {
                        assert(b@[j - 1] == out@[t]);
                    } else {
                        assert(out@[t] == old_out[t]);
                    }
                }
                assert(forall|t: int| 0 <= t < old_out.len() ==> out@[t] == old_out[t]);
            }
        } else {
            // equal keys: the later run wins
            let x = a[i];
            let y = b[j];
            proof {
                let k = es[y as int].0;
                assert(ea[i as int] == es[x as int]);
                assert(eb[j as int] == es[y as int]);
                lemma_take_push(ea, i as int);
                lemma_take_push(eb, j as int);
                lemma_pairs_to_map_push(ea.take(i as int), es[x as int]);
                lemma_pairs_to_map_push(eb.take(j as int), es[y as int]);
                lemma_union_insert_both(pairs_to_map(ea.take(i as int)), pairs_to_map(eb.take(j as int)), k, es[x as int].1, es[y as int].1);
                lemma_run_entries_push(es, old_out, y);
                lemma_pairs_to_map_push(run_entries(es, old_out), es[y as int]);
            }
            out.push(y);
            i = i + 1;
            j = j + 1;
            proof {
                assert forall|t: int| 0 <= t < out.len() implies b@.contains(#[trigger] out@[t]) || !pairs_to_map(eb).contains_key(es[out@[t] as int].0) by {
                    if t < out.len() - 1 {
                        assert(out@[t] == old_out[t]);
                    } else {
                        assert(b@[j - 1] == out@[t]);
                    }
                }
                assert forall|t: int| 0 <= t < out.len() implies a@.contains(#[trigger] out@[t]) || b@.contains(out@[t]) by {
                    if t == out.len() - 1 {
                        assert(b@[j - 1] == out@[t]);
                    } else {
                        assert(out@[t] == old_out[t]);
                    }
                }
                assert(forall|t: int| 0 <= t < old_out.len() ==> out@[t] == old_out[t]);
            }
        }
    }
    proof {
        assert(ea.take(a.len() as int) =~= ea);
        assert(eb.take(b.len() as int) =~= eb);
    }
    out
}

/// Sorts the entries `entries[lo..hi]` into a run: the returned indices
/// pick, in strictly increasing key order, the last entry of each key.
pub fn sorted_run<K: MapKey, V: MapValue>(entries: &Vec<(K, V)>, lo: usize, hi: usize) -> (run: Vec<usize>)
    requires
        lo <= hi <= entries.len(),
    ensures
        run_within(run@, lo as int, hi as int),
        run_sorted::<K, V::V>(entries_view(entries@), run@),
        run_last(entries_view(entries@), run@, hi as int),
        pairs_to_map(run_entries(entries_view(entries@), run@)) == pairs_to_map(
            entries_view(entries@).subrange(lo as int, hi as int),
        ),
    decreases hi - lo,
{
    let ghost es = entries_view(entries@);
    if hi - lo == 0 {
        let run: Vec<usize> = Vec::new();
        proof {
            assert(run_entries(es, run@) =~= es.subrange(lo as int, hi as int));
        }
        run
    } else if hi - lo == 1 {
        let mut run: Vec<usize> = Vec::new();
        run.push(lo);
        proof {
            assert(run_entries(es, run@) =~= es.subrange(lo as int, hi as int));
        }
        run
    } else {
        let mid = lo + (hi - lo) / 2;
        let a = sorted_run(entries, lo, mid);
        let b = sorted_run(entries, mid, hi);
        let out = merge_runs(entries, &a, &b);
        proof {
            lemma_pairs_to_map_append(es.subrange(lo as int, mid as int), es.subrange(mid as int, hi as int));
            assert(es.subrange(lo as int, mid as int) + es.subrange(mid as int, hi as int) =~= es.subrange(
                lo as int,
                hi as int,
            ));
            assert forall|t: int, x: int|
                0 <= t < out.len() && out@[t] < x < hi implies (#[trigger] es[x]).0 != es[(
            #[trigger] out@[t]) as int].0 by {
                if a@.contains(out@[t]) && !b@.contains(out@[t]) {
                    let u = choose|u: int| 0 <= u < a.len() && a@[u] == out@[t];
                    assert(lo <= a@[u] < mid);
                    if x >= mid as int {
                        let sub = es.subrange(mid as int, hi as int);
                        assert(sub[x - mid] == es[x]);
                        lemma_pairs_to_map_dom(sub, es[x].0);
                        assert(has_key(sub, es[x].0));
                    }
                } else {
                    let u = choose|u: int| 0 <= u < b.len() && b@[u] == out@[t];
                    assert(mid <= b@[u] < hi);
                }
            }
            assert forall|t: int| 0 <= t < out.len() implies lo <= #[trigger] out@[t] < hi by {
                if a@.contains(out@[t]) {
                    let u = choose|u: int| 0 <= u < a.len() && a@[u] == out@[t];
                    assert(lo <= a@[u] < mid);
                } else {
                    let u = choose|u: int| 0 <= u < b.len() && b@[u] == out@[t];
                    assert(mid <= b@[u] < hi);
                }
            }
        }
        out
    }
}

} // verus!
