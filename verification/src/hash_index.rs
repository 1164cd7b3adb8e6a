//! A lookup index of `(hash, entry index)` pairs sorted by hash, as the
//! Python binding keeps next to its insertion-ordered entries.

use vstd::prelude::*;

verus! {

/// The hashes of `lookup` never decrease.
pub open spec fn sorted_by_hash(lookup: Seq<(isize, u32)>) -> bool {
    forall|i: int, j: int| 0 <= i < j < lookup.len() ==> (#[trigger] lookup[i]).0 <= (#[trigger] lookup[j]).0
}

/// Returns the position of the first pair of `lookup` whose hash is not
/// below `hash`: the start of the run of pairs with that hash, if any.
pub fn hash_run_start(lookup: &[(isize, u32)], hash: isize) -> (r: usize)
    requires
        sorted_by_hash(lookup@),
    ensures
        r <= lookup.len(),
        forall|i: int| 0 <= i < r ==> (#[trigger] lookup@[i]).0 < hash,
        forall|i: int| r <= i < lookup.len() ==> (#[trigger] lookup@[i]).0 >= hash,
{
    let mut lo: usize = 0;
    let mut hi: usize = lookup.len();
    while lo < hi
        invariant
            sorted_by_hash(lookup@),
            lo <= hi <= lookup.len(),
            forall|i: int| 0 <= i < lo ==> (#[trigger] lookup@[i]).0 < hash,
            forall|i: int| hi <= i < lookup.len() ==> (#[trigger] lookup@[i]).0 >= hash,
        decreases hi - lo,
    {
        let mid = lo + (hi - lo) / 2;
        if lookup[mid].0 < hash {
            lo = mid + 1;
        } else {
            hi = mid;
        }
    }
    lo
}

/// `(h1, i1)` comes strictly before `(h2, i2)`: by hash, then by index.
pub open spec fn pair_lt(h1: isize, i1: int, h2: isize, i2: int) -> bool {
    h1 < h2 || (h1 == h2 && i1 < i2)
}

/// The indices of `run` are in `lo..hi` and strictly increasing by
/// `(hashes[i], i)`.
pub open spec fn index_run(hashes: Seq<isize>, run: Seq<usize>, lo: int, hi: int) -> bool {
    &&& forall|t: int| 0 <= t < run.len() ==> lo <= #[trigger] run[t] < hi
    &&& forall|t: int, u: int|
        0 <= t < u < run.len() ==> pair_lt(
            hashes[run[t] as int],
            run[t] as int,
            hashes[run[u] as int],
            run[u] as int,
        )
}

/// Merges two index runs over disjoint ranges, `a` below `b`.
fn merge_index_runs(hashes: &Vec<isize>, a: &Vec<usize>, b: &Vec<usize>, Ghost(lo): Ghost<int>, Ghost(mid): Ghost<int>, Ghost(hi): Ghost<int>) -> (out: Vec<usize>)
    requires
        index_run(hashes@, a@, lo, mid),
        index_run(hashes@, b@, mid, hi),
        0 <= lo <= mid <= hi <= hashes.len(),
    ensures
        index_run(hashes@, out@, lo, hi),
        out.len() == a.len() + b.len(),
{
    let mut out: Vec<usize> = Vec::new();
    let mut i: usize = 0;
    let mut j: usize = 0;
    while i < a.len() || j < b.len()
        invariant
            index_run(hashes@, a@, lo, mid),
            index_run(hashes@, b@, mid, hi),
            0 <= lo <= mid <= hi <= hashes.len(),
            i <= a.len(),
            j <= b.len(),
            out.len() == i + j,
            index_run(hashes@, out@, lo, hi),
            forall|p: int, q: int|
                0 <= p < out.len() && i <= q < a.len() ==> pair_lt(
                    hashes@[#[trigger] out@[p] as int],
                    out@[p] as int,
                    hashes@[#[trigger] a@[q] as int],
                    a@[q] as int,
                ),
            forall|p: int, q: int|
                0 <= p < out.len() && j <= q < b.len() ==> pair_lt(
                    hashes@[#[trigger] out@[p] as int],
                    out@[p] as int,
                    hashes@[#[trigger] b@[q] as int],
                    b@[q] as int,
                ),
        decreases a.len() + b.len() - i - j,
    {
        let take_a = if i == a.len() {
            false
        } else if j == b.len() {
            true
        } else {
            hashes[a[i]] <= hashes[b[j]]
        };
        let ghost old_out = out@;
        if take_a {
            let x = a[i];
            out.push(x);
            i = i + 1;
            proof {
                assert(forall|t: int| 0 <= t < old_out.len() ==> out@[t] == old_out[t]);
                assert(out@[out.len() - 1] == x);
                assert(lo <= x < mid);
                assert forall|p: int, q: int|
                    0 <= p < out.len() && i <= q < a.len() implies pair_lt(
                        hashes@[#[trigger] out@[p] as int],
                        out@[p] as int,
                        hashes@[#[trigger] a@[q] as int],
                        a@[q] as int,
                    ) by {
                    if p == out.len() - 1 {
                        assert(a@[i - 1] == x);
                    }
                }
                assert forall|p: int, q: int|
                    0 <= p < out.len() && j <= q < b.len() implies pair_lt(
                        hashes@[#[trigger] out@[p] as int],
                        out@[p] as int,
                        hashes@[#[trigger] b@[q] as int],
                        b@[q] as int,
                    ) by {
                    if p == out.len() - 1 {
                        assert(mid <= b@[j as int]);
                        assert(mid <= b@[q]);
                        if q > j {
                            assert(pair_lt(hashes@[b@[j as int] as int], b@[j as int] as int, hashes@[b@[q] as int], b@[q] as int));
                        }
                    }
                }
            }
        } else {
            let y = b[j];
            out.push(y);
            j = j + 1;
            proof {
                assert(forall|t: int| 0 <= t < old_out.len() ==> out@[t] == old_out[t]);
                assert(out@[out.len() - 1] == y);
                assert(mid <= y < hi);
                assert forall|p: int, q: int|
                    0 <= p < out.len() && i <= q < a.len() implies pair_lt(
                        hashes@[#[trigger] out@[p] as int],
                        out@[p] as int,
                        hashes@[#[trigger] a@[q] as int],
                        a@[q] as int,
                    ) by {
                    if p == out.len() - 1 {
                        if q > i {
                            assert(pair_lt(hashes@[a@[i as int] as int], a@[i as int] as int, hashes@[a@[q] as int], a@[q] as int));
                        }
                    }
                }
                assert forall|p: int, q: int|
                    0 <= p < out.len() && j <= q < b.len() implies pair_lt(
                        hashes@[#[trigger] out@[p] as int],
                        out@[p] as int,
                        hashes@[#[trigger] b@[q] as int],
                        b@[q] as int,
                    ) by {
                    if p == out.len() - 1 {
                        assert(b@[j - 1] == y);
                    }
                }
            }
        }
    }
    out
}

/// Sorts the indices `lo..hi` by `(hashes[i], i)`.
fn sorted_indices(hashes: &Vec<isize>, lo: usize, hi: usize) -> (run: Vec<usize>)
    requires
        lo <= hi <= hashes.len(),
    ensures
        index_run(hashes@, run@, lo as int, hi as int),
        run.len() == hi - lo,
    decreases hi - lo,
{
    if hi - lo == 0 {
        Vec::new()
    } else if hi - lo == 1 {
        let mut run: Vec<usize> = Vec::new();
        run.push(lo);
        run
    } else {
        let mid = lo + (hi - lo) / 2;
        let a = sorted_indices(hashes, lo, mid);
        let b = sorted_indices(hashes, mid, hi);
        merge_index_runs(hashes, &a, &b, Ghost(lo as int), Ghost(mid as int), Ghost(hi as int))
    }
}

/// Builds the lookup index of entries whose hashes are `hashes`: the pairs
/// `(hashes[i], i)` in increasing order of hash; pairs with equal hashes
/// keep the order of their indices.
pub fn build_lookup(hashes: &Vec<isize>) -> (r: Vec<(isize, u32)>)
    requires
        hashes.len() <= u32::MAX,
    ensures
        r.len() == hashes.len(),
        forall|t: int|
            0 <= t < r.len() ==> (#[trigger] r@[t]).1 < hashes.len() && r@[t].0 == hashes@[r@[t].1 as int],
        forall|t: int, u: int|
            0 <= t < u < r.len() ==> pair_lt(
                (#[trigger] r@[t]).0,
                r@[t].1 as int,
                (#[trigger] r@[u]).0,
                r@[u].1 as int,
            ),
        sorted_by_hash(r@),
{
    let n = hashes.len();
    let run = sorted_indices(hashes, 0, n);
    let mut r: Vec<(isize, u32)> = Vec::with_capacity(n);
    let mut t: usize = 0;
    while t < n
        invariant
            n == hashes.len(),
            n <= u32::MAX,
            run.len() == n,
            index_run(hashes@, run@, 0, n as int),
            t <= n,
            r.len() == t,
            forall|s: int| 0 <= s < t ==> (#[trigger] r@[s]) == (hashes@[run@[s] as int], run@[s] as u32),
        decreases n - t,
    {
        let x = run[t];
        r.push((hashes[x], x as u32));
        t = t + 1;
    }
    proof {
        assert forall|s: int, u: int| 0 <= s < u < r.len() implies pair_lt(
            (#[trigger] r@[s]).0,
            r@[s].1 as int,
            (#[trigger] r@[u]).0,
            r@[u].1 as int,
        ) by {
            assert(r@[s] == (hashes@[run@[s] as int], run@[s] as u32));
            assert(r@[u] == (hashes@[run@[u] as int], run@[u] as u32));
        }
        assert forall|s: int, u: int| 0 <= s < u < r.len() implies (#[trigger] r@[s]).0 <= (#[trigger] r@[u]).0 by {
            assert(r@[s] == (hashes@[run@[s] as int], run@[s] as u32));
            assert(r@[u] == (hashes@[run@[u] as int], run@[u] as u32));
        }
    }
    r
}

} // verus!
