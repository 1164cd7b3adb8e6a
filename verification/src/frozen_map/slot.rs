//! The open-addressing probe table.
//!
//! A table is a power-of-two number of [`Slot`]s. An entry with key hash
//! `h` lives in the first vacant slot found when probing linearly from its
//! home slot `h mod capacity`.

use vstd::arithmetic::power2::{lemma2_to64, lemma2_to64_rest, lemma_pow2_pos, lemma_pow2_strictly_increases, lemma_pow2_unfold, pow2};
use vstd::bits::{lemma_usize_low_bits_mask_is_mod, low_bits_mask};
use vstd::prelude::*;

verus! {

/// The hash that marks a vacant slot.
pub const EMPTY: u64 = u64::MAX;

/// One cell of the probe table: the full hash of a key and the index of its
/// entry, or [`EMPTY`] in `hash` for a vacant slot.
#[derive(Clone, Copy)]
pub struct Slot {
    pub hash: u64,
    pub idx: u32,
}

/// A vacant slot.
pub open spec fn vacant_slot() -> Slot {
    Slot { hash: EMPTY, idx: 0 }
}

/// Whether a map of `n` entries fits the probe table: entry indices fit in
/// a `u32`, and a table of up to four slots per entry fits in a `usize`.
pub open spec fn fits_in_table(n: int) -> bool {
    n <= u32::MAX && n <= usize::MAX / 4
}

/// Whether `n` is a power of two that a `usize` can hold.
pub open spec fn is_power_of_two(n: int) -> bool {
    exists|k: nat| k < usize::BITS && pow2(k) == n
}

/// The least capacity a table for `n` entries may have: `max(2 * n, 8)`.
pub open spec fn capacity_target(n: int) -> int {
    if 2 * n > 8 { 2 * n } else { 8 }
}

/// The capacity that `probe_capacity(n)` returns: the smallest power of two
/// that is at least `max(2 * n, 8)`.
pub open spec fn is_probe_capacity(n: int, cap: int) -> bool {
    &&& is_power_of_two(cap)
    &&& capacity_target(n) <= cap < 2 * capacity_target(n)
}

/// Returns the smallest power of two that is at least `max(2 * n, 8)`.
///
/// The minimum of 8 avoids degenerate tables for tiny maps; the factor 2
/// keeps the load factor at or below one half.
pub fn probe_capacity(n: usize) -> (cap: usize)
    requires
        n <= usize::MAX / 4,
    ensures
        is_probe_capacity(n as int, cap as int),
{
    let target: usize = if n * 2 > 8 { n * 2 } else { 8 };
    let mut p: usize = 1;
    let ghost mut k: nat = 0;
    proof {
        lemma2_to64();
    }
    while p < target
        invariant
            target == if n * 2 > 8 { n * 2 } else { 8 },
            target <= usize::MAX / 2,
            1 <= p,
            p == pow2(k),
            p == 1 || p < 2 * target,
        decreases usize::MAX - p,
    {
        proof {
            lemma_pow2_unfold(k + 1);
        }
        p = p * 2;
        proof {
            k = (k + 1) as nat;
        }
    }
    proof {
        if k >= usize::BITS {
            lemma_pow2_strictly_increases_le(usize::BITS as nat, k);
            lemma_pow2_bits();
        }
    }
    p
}

proof fn lemma_pow2_strictly_increases_le(a: nat, b: nat)
    requires
        a <= b,
    ensures
        pow2(a) <= pow2(b),
{
    if a < b {
        lemma_pow2_strictly_increases(a, b);
    }
}

proof fn lemma_pow2_bits()
    ensures
        pow2(usize::BITS as nat) == usize::MAX + 1,
{
    lemma2_to64();
    lemma2_to64_rest();
}

/// For a power-of-two `cap`, masking with `cap - 1` is reduction modulo `cap`.
pub(crate) proof fn lemma_mask_is_mod(x: usize, cap: usize)
    requires
        is_power_of_two(cap as int),
    ensures
        cap > 0,
        x & ((cap - 1) as usize) == x % cap,
{
    let k = choose|k: nat| k < usize::BITS && pow2(k) == cap;
    lemma_pow2_pos(k);
    lemma_usize_low_bits_mask_is_mod(x, k);
    assert(low_bits_mask(k) == cap - 1);
}

/// Whether slot `s` of `table` is vacant.
pub open spec fn is_vacant(table: Seq<Slot>, s: int) -> bool {
    table[s].hash == EMPTY
}

/// The home slot of a key hash in a table of `cap` slots.
pub open spec fn home_slot(key_hash: u64, cap: int) -> int {
    (key_hash as usize) as int % cap
}

/// The slot visited `t` steps after `home`.
pub open spec fn probe_slot(cap: int, home: int, t: int) -> int {
    (home + t) % cap
}

/// The first vacant slot when probing `table` from `home` is `d` steps away.
pub open spec fn first_vacant_at(table: Seq<Slot>, home: int, d: int) -> bool {
    &&& 0 <= d < table.len()
    &&& is_vacant(table, probe_slot(table.len() as int, home, d))
    &&& forall|t: int|
        0 <= t < d ==> !is_vacant(table, #[trigger] probe_slot(table.len() as int, home, t))
}

/// At most one distance is the distance to the first vacant slot.
proof fn lemma_first_vacant_unique(table: Seq<Slot>, home: int, d1: int, d2: int)
    requires
        first_vacant_at(table, home, d1),
        first_vacant_at(table, home, d2),
    ensures
        d1 == d2,
{
    if d1 < d2 {
        assert(!is_vacant(table, probe_slot(table.len() as int, home, d1)));
    } else if d2 < d1 {
        assert(!is_vacant(table, probe_slot(table.len() as int, home, d2)));
    }
}

/// The slot that inserting a key with hash `h` into `table` fills: the
/// first vacant slot probing from the home slot of `h`.
pub open spec fn insert_slot(table: Seq<Slot>, h: u64) -> int {
    let cap = table.len() as int;
    let home = home_slot(h, cap);
    probe_slot(cap, home, choose|d: int| first_vacant_at(table, home, d))
}

/// A table of `cap` vacant slots.
pub open spec fn vacant_table(cap: nat) -> Seq<Slot> {
    Seq::new(cap, |s: int| vacant_slot())
}

/// `table` after inserting, in index order, entries `0..n` whose keys hash
/// to `hashes`.
pub open spec fn table_after_inserts(table: Seq<Slot>, hashes: Seq<u64>, n: nat) -> Seq<Slot>
    decreases n,
{
    if n == 0 {
        table
    } else {
        let t = table_after_inserts(table, hashes, (n - 1) as nat);
        t.update(insert_slot(t, hashes[n - 1]), Slot { hash: hashes[n - 1], idx: (n - 1) as u32 })
    }
}

/// Every slot is visited by a probe from `home` within `cap` steps.
proof fn lemma_probe_covers(cap: int, home: int, s: int) -> (t: int)
    requires
        0 < cap,
        0 <= home < cap,
        0 <= s < cap,
    ensures
        0 <= t < cap,
        probe_slot(cap, home, t) == s,
{
    let t = if s >= home { s - home } else { s + cap - home };
    assert(probe_slot(cap, home, t) == s) by {
        vstd::arithmetic::div_mod::lemma_small_mod(s as nat, cap as nat);
        if s >= home {
            assert((home + (s - home)) % cap == s % cap);
        } else {
            vstd::arithmetic::div_mod::lemma_mod_add_multiples_vanish(s, cap);
        }
    }
    t
}

/// Advancing by one slot from `probe_slot(cap, home, t)`, wrapping at the end.
pub(crate) proof fn lemma_probe_step(cap: int, home: int, t: int)
    requires
        0 < cap,
        0 <= home < cap,
        0 <= t,
    ensures
        (probe_slot(cap, home, t) + 1) % cap == probe_slot(cap, home, t + 1),
        0 <= probe_slot(cap, home, t) < cap,
{
    vstd::arithmetic::div_mod::lemma_add_mod_noop(home + t, 1, cap);
    vstd::arithmetic::div_mod::lemma_mod_bound(home + t, cap);
    if cap > 1 {
        vstd::arithmetic::div_mod::lemma_small_mod(1, cap as nat);
    } else {
        assert((probe_slot(cap, home, t) + 1) % cap == 0);
        assert(probe_slot(cap, home, t + 1) == 0);
    }
}

/// Writes `(key_hash, idx)` into the first vacant slot found by probing
/// linearly from the home slot of `key_hash`.
///
/// The table's length must be a power of two, so that masking with
/// `len - 1` wraps the slot index, and the table must hold a vacant slot.
pub fn table_insert(table: &mut Vec<Slot>, key_hash: u64, idx: u32)
    requires
        is_power_of_two(old(table).len() as int),
        exists|s: int| 0 <= s < old(table).len() && is_vacant(old(table)@, s),
    ensures
        exists|d: int|
            #![trigger probe_slot(old(table).len() as int, home_slot(key_hash, old(table).len() as int), d)]
            {
                &&& first_vacant_at(old(table)@, home_slot(key_hash, old(table).len() as int), d)
                &&& final(table)@ == old(table)@.update(
                    probe_slot(old(table).len() as int, home_slot(key_hash, old(table).len() as int), d),
                    Slot { hash: key_hash, idx },
                )
            },
        final(table)@ == old(table)@.update(insert_slot(old(table)@, key_hash), Slot { hash: key_hash, idx }),
{
    let cap = table.len();
    let mask = cap - 1;
    proof {
        lemma_mask_is_mod(key_hash as usize, cap);
    }
    let mut slot = (key_hash as usize) & mask;
    let ghost home = slot as int;
    let ghost mut d: int = 0;
    proof {
        assert(home == home_slot(key_hash, cap as int));
        assert(probe_slot(cap as int, home, 0) == home) by {
            vstd::arithmetic::div_mod::lemma_small_mod(home as nat, cap as nat);
        }
    }
    loop
        invariant
            table@ == old(table)@,
            cap == table.len(),
            mask == cap - 1,
            is_power_of_two(cap as int),
            0 < cap,
            0 <= home < cap,
            home == home_slot(key_hash, cap as int),
            exists|s: int| 0 <= s < cap && is_vacant(table@, s),
            0 <= d < cap,
            slot as int == probe_slot(cap as int, home, d),
            forall|t: int| 0 <= t < d ==> !is_vacant(table@, #[trigger] probe_slot(cap as int, home, t)),
        decreases cap - d,
    {
        proof {
            lemma_probe_step(cap as int, home, d);
        }
        if table[slot].hash == EMPTY {
            table.set(slot, Slot { hash: key_hash, idx });
            assert(first_vacant_at(old(table)@, home, d));
            proof {
                let c = choose|c: int| first_vacant_at(old(table)@, home, c);
                lemma_first_vacant_unique(old(table)@, home, c, d);
            }
            assert(table@ == old(table)@.update(
                probe_slot(old(table).len() as int, home_slot(key_hash, old(table).len() as int), d),
                Slot { hash: key_hash, idx },
            ));
            return;
        }
        proof {
            lemma_mask_is_mod((slot + 1) as usize, cap);
        }
        slot = (slot + 1) & mask;
        proof {
            d = d + 1;
            if d == cap {
                let v = choose|s: int| 0 <= s < cap && is_vacant(table@, s);
                let t = lemma_probe_covers(cap as int, home, v);
                assert(!is_vacant(table@, probe_slot(cap as int, home, t)));
            }
        }
    }
}

/// The number of occupied (not vacant) slots of `table`.
pub open spec fn occupied(table: Seq<Slot>) -> nat
    decreases table.len(),
{
    if table.len() == 0 {
        0
    } else {
        occupied(table.drop_last()) + if table.last().hash != EMPTY {
            1nat
        } else {
            0nat
        }
    }
}

/// Filling a vacant slot occupies at most one more slot.
proof fn lemma_occupied_fill(table: Seq<Slot>, s: int, x: Slot)
    requires
        0 <= s < table.len(),
        is_vacant(table, s),
    ensures
        occupied(table.update(s, x)) <= occupied(table) + 1,
    decreases table.len(),
{
    let u = table.update(s, x);
    if s < table.len() - 1 {
        assert(u.drop_last() =~= table.drop_last().update(s, x));
        lemma_occupied_fill(table.drop_last(), s, x);
        assert(u.last() == table.last());
    } else {
        assert(u.drop_last() =~= table.drop_last());
    }
}

/// A table with fewer occupied slots than slots has a vacant slot.
proof fn lemma_vacant_exists(table: Seq<Slot>)
    requires
        occupied(table) < table.len(),
    ensures
        exists|s: int| 0 <= s < table.len() && is_vacant(table, s),
    decreases table.len(),
{
    let t = table.drop_last();
    assert(table.last() == table[table.len() - 1]);
    if table.last().hash == EMPTY {
        assert(is_vacant(table, table.len() - 1));
    } else {
        lemma_vacant_exists(t);
        let s = choose|s: int| 0 <= s < t.len() && is_vacant(t, s);
        assert(table[s] == t[s]);
        assert(is_vacant(table, s));
    }
}

/// A table of vacant slots has none occupied.
proof fn lemma_all_vacant(table: Seq<Slot>)
    requires
        forall|s: int| 0 <= s < table.len() ==> is_vacant(table, s),
    ensures
        occupied(table) == 0,
    decreases table.len(),
{
    if table.len() > 0 {
        let t = table.drop_last();
        assert forall|s: int| 0 <= s < t.len() implies is_vacant(t, s) by {
            assert(t[s] == table[s]);
            assert(is_vacant(table, s));
        }
        assert(table.last() == table[table.len() - 1]);
        lemma_all_vacant(t);
        assert(is_vacant(table, table.len() - 1));
    }
}

/// Entry `i`, whose key hashes to `h`, is found by probing from the home
/// slot of `h`: its slot lies `d` steps away and every slot before it is
/// occupied. (An entry whose hash equals [`EMPTY`] cannot be told from a
/// vacant slot and is exempt.)
pub open spec fn entry_reachable(table: Seq<Slot>, h: u64, i: int) -> bool {
    h == EMPTY || exists|d: int| #[trigger] reached_at(table, h, i, d)
}

/// Entry `i` with hash `h` sits `d` probe steps from its home slot, with
/// no vacant slot before it.
pub open spec fn reached_at(table: Seq<Slot>, h: u64, i: int, d: int) -> bool {
    let cap = table.len() as int;
    let home = home_slot(h, cap);
    &&& 0 <= d < cap
    &&& table[probe_slot(cap, home, d)] == Slot { hash: h, idx: i as u32 }
    &&& forall|t: int| 0 <= t < d ==> !is_vacant(table, #[trigger] probe_slot(cap, home, t))
}

/// `table` is a probe table for the first `n` of the key hashes `hashes`:
/// its length is a power of two, every occupied slot names one of the `n`
/// entries, and every entry is reachable from its home slot.
pub open spec fn table_wf(table: Seq<Slot>, hashes: Seq<u64>, n: int) -> bool {
    &&& is_power_of_two(table.len() as int)
    &&& n <= hashes.len()
    &&& forall|s: int| 0 <= s < table.len() && !is_vacant(table, s) ==> (table[s].idx as int) < n
    &&& forall|i: int| 0 <= i < n ==> entry_reachable(table, #[trigger] hashes[i], i)
}

/// Builds the probe table for entries whose keys hash to `hashes`: entry
/// `i` is inserted, in index order, into the first vacant slot probing from
/// the home slot of `hashes[i]`.
pub fn build_table(hashes: &Vec<u64>) -> (table: Vec<Slot>)
    requires
        fits_in_table(hashes.len() as int),
    ensures
        is_probe_capacity(hashes.len() as int, table.len() as int),
        table@ == table_after_inserts(vacant_table(table.len() as nat), hashes@, hashes.len() as nat),
        table_wf(table@, hashes@, hashes.len() as int),
{
    let n = hashes.len();
    let cap = probe_capacity(n);
    let mut table: Vec<Slot> = Vec::with_capacity(cap);
    let mut s: usize = 0;
    while s < cap
        invariant
            s <= cap,
            table@ == vacant_table(s as nat),
        decreases cap - s,
    {
        table.push(Slot { hash: EMPTY, idx: 0 });
        s = s + 1;
        proof {
            assert(table@ =~= vacant_table(s as nat));
        }
    }
    proof {
        assert forall|u: int| 0 <= u < table.len() implies is_vacant(table@, u) by {
            assert(table@[u] == vacant_slot());
        }
        lemma_all_vacant(table@);
    }
    let ghost init = table@;
    let mut i: usize = 0;
    while i < n
        invariant
            n == hashes.len(),
            n <= u32::MAX,
            is_probe_capacity(n as int, cap as int),
            table.len() == cap,
            i <= n,
            table_wf(table@, hashes@, i as int),
            occupied(table@) <= i,
            init == vacant_table(cap as nat),
            table@ == table_after_inserts(init, hashes@, i as nat),
        decreases n - i,
    {
        let h = hashes[i];
        let ghost before = table@;
        proof {
            lemma_vacant_exists(table@);
        }
        table_insert(&mut table, h, i as u32);
        proof {
            let home = home_slot(h, cap as int);
            let d = choose|d: int|
                #![trigger probe_slot(cap as int, home, d)]
                {
                    &&& first_vacant_at(before, home, d)
                    &&& table@ == before.update(probe_slot(cap as int, home, d), Slot { hash: h, idx: i as u32 })
                };
            let star = probe_slot(cap as int, home, d);
            lemma_probe_step(cap as int, home, d);
            lemma_occupied_fill(before, star, Slot { hash: h, idx: i as u32 });
            assert forall|u: int| 0 <= u < table.len() && !is_vacant(table@, u) implies (table@[u].idx as int) < i + 1 by {
                if u != star {
                    assert(table@[u] == before[u]);
                    assert(!is_vacant(before, u));
                } else {
                    assert(table@[u] == Slot { hash: h, idx: i as u32 });
                }
            }
            assert forall|j: int| 0 <= j < i + 1 implies entry_reachable(table@, #[trigger] hashes@[j], j) by {
                if j == i {
                    if h != EMPTY {
                        assert(reached_at(table@, h, j, d));
                    }
                } else {
                    let hj = hashes@[j];
                    if hj != EMPTY {
                        let homej = home_slot(hj, cap as int);
                        let dj = choose|dj: int| #[trigger] reached_at(before, hj, j, dj);
                        lemma_probe_step(cap as int, homej, dj);
                        assert forall|t: int| 0 <= t < dj implies !is_vacant(table@, #[trigger] probe_slot(cap as int, homej, t)) by {
                            lemma_probe_step(cap as int, homej, t);
                            assert(!is_vacant(before, probe_slot(cap as int, homej, t)));
                            assert(probe_slot(cap as int, homej, t) != star);
                        }
                        assert(probe_slot(cap as int, homej, dj) != star);
                        assert(reached_at(table@, hj, j, dj));
                    }
                }
            }
        }
        i = i + 1;
    }
    table
}

} // verus!
