//! Checking lists of `[key, value]` entries, as the Node.js binding's
//! `fromEntries` receives them: every entry must have at least two
//! elements and a string key.

use vstd::prelude::*;

verus! {

/// One entry of a list, reduced to what the checks read.
pub enum RawEntry {
    /// An entry with fewer than two elements.
    Short,
    /// An entry whose key is not a string; the text shows the key.
    KeyNotString(String),
    /// A well-formed entry: its string key and its value (as text).
    Pair(String, String),
}

/// Why an entry list was refused.
pub enum EntryError {
    /// The entry at `index` has fewer than two elements.
    Short { index: usize },
    /// The key of the entry at `index` is not a string; `key` shows it.
    KeyNotString { index: usize, key: String },
}

/// The first `n` entries are well formed.
pub open spec fn all_pairs(entries: Seq<RawEntry>, n: int) -> bool {
    forall|i: int| 0 <= i < n ==> (#[trigger] entries[i]) is Pair
}

/// The key and value of each entry, each taken by its characters.
pub open spec fn pair_views(pairs: Seq<(String, String)>) -> Seq<(Seq<char>, Seq<char>)> {
    pairs.map_values(|p: (String, String)| (p.0@, p.1@))
}

/// The key and value of a well-formed entry, by their characters.
pub open spec fn entry_view(e: RawEntry) -> (Seq<char>, Seq<char>) {
    match e {
        RawEntry::Pair(k, v) => (k@, v@),
        _ => (Seq::empty(), Seq::empty()),
    }
}

/// Returns the `(key, value)` pairs of `entries`, in order, or the error
/// of the first entry that is not well formed.
pub fn collect_entries(entries: &Vec<RawEntry>) -> (r: Result<Vec<(String, String)>, EntryError>)
    ensures
        r is Ok <==> all_pairs(entries@, entries.len() as int),
        r matches Ok(pairs) ==> pair_views(pairs@) == entries@.map_values(|e: RawEntry| entry_view(e)),
        r matches Err(e) ==> {
            let i = match e {
                EntryError::Short { index } => index as int,
                EntryError::KeyNotString { index, key } => index as int,
            };
            &&& 0 <= i < entries.len()
            &&& all_pairs(entries@, i)
            &&& (e is Short ==> entries@[i] is Short)
            &&& (e matches EntryError::KeyNotString { index, key } ==> entries@[i] matches RawEntry::KeyNotString(k) && k@ == key@)
        },
{
    let n = entries.len();
    let mut pairs: Vec<(String, String)> = Vec::with_capacity(n);
    let mut i: usize = 0;
    while i < n
        invariant
            n == entries.len(),
            i <= n,
            all_pairs(entries@, i as int),
            pair_views(pairs@) == entries@.take(i as int).map_values(|e: RawEntry| entry_view(e)),
        decreases n - i,
    {
        match &entries[i] {
            RawEntry::Short => {
                return Err(EntryError::Short { index: i });
            },
            RawEntry::KeyNotString(k) => {
                return Err(EntryError::KeyNotString { index: i, key: k.clone() });
            },
            RawEntry::Pair(k, v) => {
                let ghost old_pairs = pairs@;
                pairs.push((k.clone(), v.clone()));
                proof {
                    assert(pair_views(pairs@) =~= pair_views(old_pairs).push((k@, v@)));
                    assert(entries@.take(i + 1).map_values(|e: RawEntry| entry_view(e)) =~= entries@.take(
                        i as int,
                    ).map_values(|e: RawEntry| entry_view(e)).push(entry_view(entries@[i as int])));
                }
            },
        }
        i = i + 1;
    }
    proof {
        assert(entries@.take(n as int) =~= entries@);
    }
    Ok(pairs)
}

} // verus!
