# frozendict

A fully immutable, hashable map. Keys and values are kept in two parallel
vectors in increasing key order; an open-addressing probe table maps key
hashes (computed with `ahash`) to entry indices, and an aggregate hash of
all entries is computed once, at construction. Duplicate keys given to a
constructor are resolved by last-write-wins, and every "update" returns a
new map.

The library in `src/` is verified with Verus:

- `frozen_map::map` — `FrozenMap`: construction, lookup, iteration and the
  functional updates `merge`, `with`, `without`, `intersection`, `union`,
  `difference`, each specified over the map's view (`Map<K::V, V::V>`);
- `frozen_map::runs` — the merge sort that orders entries by key, keeping
  the last entry of each key;
- `frozen_map::slot` — the probe table: `probe_capacity`, `table_insert`,
  `build_table` and the reachability invariant of every stored entry;
- `frozen_map::key` — the `MapKey` / `MapValue` traits and their
  implementations for integers, `bool`, `String`, `&str` and pairs;
- `frozen_map::fmt`, `frozen_map::ops` — text renderings and the standard
  traits (`Default`, `PartialEq`, `Eq`, `Clone`, `Hash`);
- `hash_index` — the hash-sorted lookup search of the Python binding.

`app/` holds the Python (pyo3) and Node.js (napi) bindings, which are
ordinary Rust around the library.
