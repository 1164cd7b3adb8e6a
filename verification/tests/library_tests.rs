use frozendict::entry_list::{collect_entries, EntryError, RawEntry};
use frozendict::frozen_map::bytes::compare_bytes;
use frozendict::frozen_map::hashing::{mix, MIX_KEY, MIX_VAL};
use frozendict::frozen_map::runs::sorted_run;
use frozendict::frozen_map::slot::{build_table, probe_capacity, table_insert, Slot, EMPTY};
use frozendict::frozen_map::text::{bool_str, signed_text, str_debug, unsigned_text};
use frozendict::frozen_map::{FrozenMap, KeyOrder, MapKey, MapValue, TextDisplay};
use frozendict::hash_index::{build_lookup, hash_run_start};
use std::collections::hash_map::DefaultHasher;
use std::hash::{Hash, Hasher};

fn hash_of<T: Hash>(val: &T) -> u64 {
    let mut h = DefaultHasher::new();
    val.hash(&mut h);
    h.finish()
}

fn sample() -> FrozenMap<&'static str, i32> {
    FrozenMap::new(vec![("c", 3), ("a", 1), ("b", 2)])
}

#[test]
fn probe_capacity_is_smallest_power_of_two_of_twice_the_entries() {
    assert_eq!(probe_capacity(0), 8);
    assert_eq!(probe_capacity(1), 8);
    assert_eq!(probe_capacity(4), 8);
    assert_eq!(probe_capacity(5), 16);
    assert_eq!(probe_capacity(8), 16);
    assert_eq!(probe_capacity(9), 32);
    assert_eq!(probe_capacity(1000), 2048);
    assert_eq!(probe_capacity(1024), 2048);
    assert_eq!(probe_capacity(1025), 4096);
}

#[test]
fn table_insert_fills_first_vacant_slot_from_home() {
    let mut table = vec![Slot { hash: EMPTY, idx: 0 }; 8];
    table_insert(&mut table, 3, 0);
    assert_eq!((table[3].hash, table[3].idx), (3, 0));
    // same home slot: the next vacant slot
    table_insert(&mut table, 11, 1);
    assert_eq!((table[4].hash, table[4].idx), (11, 1));
    // home slot 7, then wrap around to 0
    table_insert(&mut table, 7, 2);
    table_insert(&mut table, 15, 3);
    assert_eq!((table[7].hash, table[7].idx), (7, 2));
    assert_eq!((table[0].hash, table[0].idx), (15, 3));
    let vacant = table.iter().filter(|s| s.hash == EMPTY).count();
    assert_eq!(vacant, 4);
}

#[test]
fn build_table_places_every_entry_along_its_probe_path() {
    let hashes: Vec<u64> = vec![1, 9, 17, 2, 100];
    let table = build_table(&hashes);
    assert_eq!(table.len(), 16);
    for (i, h) in hashes.iter().enumerate() {
        let mut slot = (*h as usize) % table.len();
        loop {
            assert_ne!(table[slot].hash, EMPTY, "entry {i} not reachable");
            if table[slot].hash == *h && table[slot].idx as usize == i {
                break;
            }
            slot = (slot + 1) % table.len();
        }
    }
}

#[test]
fn probe_hits_under_the_stored_hash_and_never_names_another_key() {
    let m = sample();
    for (i, k) in m.keys().iter().enumerate() {
        assert_eq!(m.probe(k, k.hash_value()), Some(i));
    }
    // a wrong hash may miss, but never names another key
    for k in m.keys() {
        match m.probe(k, 12345) {
            Some(i) => assert_eq!(m.keys()[i], *k),
            None => {}
        }
    }
    assert_eq!(m.probe(&"zz", "zz".hash_value()), None);
}

#[test]
fn lookups_agree_with_the_sorted_entries() {
    let m = sample();
    assert_eq!(m.keys(), &["a", "b", "c"]);
    assert_eq!(m.values(), &[1, 2, 3]);
    assert_eq!(m.get(&"b"), Some(&2));
    assert_eq!(m.get_key_value(&"c"), Some((&"c", &3)));
    assert_eq!(*m.index(&"a"), 1);
    assert!(!m.contains_key(&""));
    assert_eq!(m.get(&"d"), None);
}

#[test]
fn last_write_wins_across_many_duplicates() {
    let m = FrozenMap::new(vec![(2u64, "x"), (1, "y"), (2, "z"), (3, "w"), (1, "v")]);
    assert_eq!(m.keys(), &[1, 2, 3]);
    assert_eq!(m.values(), &["v", "z", "w"]);
}

#[test]
fn entry_order_does_not_change_the_map() {
    let a = FrozenMap::new(vec![(3i64, 30u128), (1, 10), (2, 20)]);
    let b = FrozenMap::new(vec![(2i64, 20u128), (3, 30), (1, 10)]);
    assert_eq!(a.into_pairs(), b.into_pairs());
}

#[test]
fn equal_entries_compare_equal_and_hash_alike() {
    let a = FrozenMap::new(vec![("x", 1), ("y", 2)]);
    let b = FrozenMap::new(vec![("y", 2), ("x", 1)]);
    assert!(a == b);
    assert_eq!(a.precomputed_hash(), b.precomputed_hash());
    assert_eq!(hash_of(&a), hash_of(&a.precomputed_hash()));
    let c = a.with("y", 3);
    assert!(a != c);
}

#[test]
fn aggregate_hash_combines_entry_hashes() {
    let empty: FrozenMap<&str, i32> = FrozenMap::new(vec![]);
    assert_eq!(empty.precomputed_hash(), 0);
    let one = FrozenMap::new(vec![("k", 7i32)]);
    assert_eq!(one.precomputed_hash(), mix("k".hash_value(), 7i32.hash_value()));
    let two = FrozenMap::new(vec![(1u32, true), (2u32, false)]);
    assert_eq!(
        two.precomputed_hash(),
        mix(1u32.hash_value(), true.hash_value()) ^ mix(2u32.hash_value(), false.hash_value())
    );
}

#[test]
fn mix_multiplies_and_xors() {
    assert_eq!(mix(1, 0), MIX_KEY);
    assert_eq!(mix(0, 1), MIX_VAL);
    assert_eq!(mix(2, 3), MIX_KEY.wrapping_mul(2) ^ MIX_VAL.wrapping_mul(3));
    assert_eq!(mix(0, 0), 0);
}

#[test]
fn functional_updates_match_their_map_operations() {
    let a = FrozenMap::new(vec![("a", 1), ("b", 2), ("c", 3)]);
    let b = FrozenMap::new(vec![("b", 20), ("d", 40)]);
    assert_eq!(a.merge(&b).into_pairs(), vec![("a", 1), ("b", 20), ("c", 3), ("d", 40)]);
    assert_eq!(a.union(&b).into_pairs(), vec![("a", 1), ("b", 2), ("c", 3), ("d", 40)]);
    assert_eq!(a.intersection(&b).into_pairs(), vec![("b", 2)]);
    assert_eq!(a.difference(&b).into_pairs(), vec![("a", 1), ("c", 3)]);
    assert_eq!(a.with("0", 0).into_pairs(), vec![("0", 0), ("a", 1), ("b", 2), ("c", 3)]);
    assert_eq!(a.without(&"b").into_pairs(), vec![("a", 1), ("c", 3)]);
    // the originals are unchanged
    assert_eq!(a.len(), 3);
    assert_eq!(b.len(), 2);
}

#[test]
fn fromkeys_binds_every_key_to_the_value() {
    let m = FrozenMap::fromkeys(vec![3usize, 1, 3, 2], String::from("v"));
    assert_eq!(m.keys(), &[1, 2, 3]);
    assert!(m.values().iter().all(|v| v == "v"));
}

#[test]
fn debug_and_display_texts() {
    let m = FrozenMap::new(vec![("b", 2), ("a", -1)]);
    assert_eq!(m.debug_string(), "frozendict({\"a\": -1, \"b\": 2})");
    assert_eq!(m.display_string(), "frozendict({a: -1, b: 2})");
    let empty: FrozenMap<&str, i32> = FrozenMap::default();
    assert_eq!(empty.debug_string(), "frozendict({})");
    assert_eq!(empty.pretty_repr(4), "frozendict({\n})");
}

#[test]
fn pretty_repr_indents_each_entry() {
    let m = FrozenMap::new(vec![("b", true), ("a", false)]);
    assert_eq!(m.pretty_repr(2), "frozendict({\n  \"a\": false,\n  \"b\": true,\n})");
    assert_eq!(m.pretty_repr(0), "frozendict({\n\"a\": false,\n\"b\": true,\n})");
}

#[test]
fn pair_values_format_like_tuples() {
    let m = FrozenMap::new(vec![(1i32, (String::from("one"), true))]);
    assert_eq!(m.debug_string(), "frozendict({1: (\"one\", true)})");
    assert_eq!(m.debug_string(), format!("frozendict({{{:?}: {:?}}})", 1, ("one", true)));
}

#[test]
fn numerals_match_std_formatting() {
    assert_eq!(unsigned_text(0), "0");
    assert_eq!(unsigned_text(1234567890), "1234567890");
    assert_eq!(unsigned_text(u128::MAX), u128::MAX.to_string());
    assert_eq!(signed_text(-5), "-5");
    assert_eq!(signed_text(i128::MIN), i128::MIN.to_string());
    assert_eq!(signed_text(i128::MAX), i128::MAX.to_string());
    assert_eq!(i64::MIN.fmt_debug(), format!("{:?}", i64::MIN));
    assert_eq!(usize::MAX.fmt_display(), usize::MAX.to_string());
    assert_eq!(bool_str(true), "true");
    assert_eq!(bool_str(false), "false");
}

#[test]
fn string_debug_text_is_quoted_and_escaped() {
    assert_eq!(str_debug("a\"b"), "\"a\\\"b\"");
    assert_eq!(str_debug("tab\there"), "\"tab\\there\"");
    assert_eq!("日本".fmt_debug(), format!("{:?}", "日本"));
    assert_eq!(String::from("x").fmt_display(), "x");
}

#[test]
fn strings_order_by_their_bytes_like_std() {
    let words = ["", "a", "ab", "abc", "b", "z", "é", "日本語", "Ελληνικά", "Z"];
    for x in words.iter() {
        for y in words.iter() {
            let expected = match x.cmp(y) {
                std::cmp::Ordering::Less => KeyOrder::Less,
                std::cmp::Ordering::Equal => KeyOrder::Equal,
                std::cmp::Ordering::Greater => KeyOrder::Greater,
            };
            assert_eq!(x.compare_key(y), expected);
            assert_eq!(String::from(*x).compare_key(&String::from(*y)), expected);
            assert_eq!(compare_bytes(x.as_bytes(), y.as_bytes()), expected);
        }
    }
}

#[test]
fn sorted_run_keeps_the_last_entry_of_each_key() {
    let entries = vec![(5i32, 'a'), (1, 'b'), (5, 'c'), (3, 'd'), (1, 'e')];
    let entries: Vec<(i32, u32)> = entries.into_iter().map(|(k, c)| (k, c as u32)).collect();
    let run = sorted_run(&entries, 0, entries.len());
    assert_eq!(run, vec![4, 3, 2]);
    let left = sorted_run(&entries, 0, 3);
    assert_eq!(left, vec![1, 2]);
}

#[test]
fn hash_run_start_finds_the_lower_bound() {
    let lookup: Vec<(isize, u32)> = vec![(-3, 0), (1, 4), (1, 2), (7, 1)];
    assert_eq!(hash_run_start(&lookup, -10), 0);
    assert_eq!(hash_run_start(&lookup, -3), 0);
    assert_eq!(hash_run_start(&lookup, 0), 1);
    assert_eq!(hash_run_start(&lookup, 1), 1);
    assert_eq!(hash_run_start(&lookup, 2), 3);
    assert_eq!(hash_run_start(&lookup, 8), 4);
    assert_eq!(hash_run_start(&[], 8), 0);
}

#[test]
fn clone_keeps_entries_and_hash() {
    let m = FrozenMap::new(vec![(String::from("k"), String::from("v"))]);
    let c = m.clone();
    assert!(m == c);
    assert_eq!(c.precomputed_hash(), m.precomputed_hash());
    assert_eq!(c.get(&String::from("k")), Some(&String::from("v")));
}

#[test]
fn items_pair_keys_with_their_values() {
    let m = sample();
    let items = m.items();
    assert_eq!(items, vec![(&"a", &1), (&"b", &2), (&"c", &3)]);
}

#[test]
fn entry_lists_are_checked_in_order() {
    let ok = vec![
        RawEntry::Pair("a".to_string(), "1".to_string()),
        RawEntry::Pair("b".to_string(), "[2]".to_string()),
    ];
    match collect_entries(&ok) {
        Ok(pairs) => assert_eq!(
            pairs,
            vec![("a".to_string(), "1".to_string()), ("b".to_string(), "[2]".to_string())]
        ),
        Err(_) => panic!("well-formed entries refused"),
    }
    let short = vec![RawEntry::Pair("a".to_string(), "1".to_string()), RawEntry::Short, RawEntry::KeyNotString("3".to_string())];
    match collect_entries(&short) {
        Err(EntryError::Short { index }) => assert_eq!(index, 1),
        _ => panic!("short entry accepted"),
    }
    let bad_key = vec![RawEntry::KeyNotString("Number(3)".to_string()), RawEntry::Short];
    match collect_entries(&bad_key) {
        Err(EntryError::KeyNotString { index, key }) => {
            assert_eq!(index, 0);
            assert_eq!(key, "Number(3)");
        }
        _ => panic!("non-string key accepted"),
    }
    match collect_entries(&vec![]) {
        Ok(pairs) => assert!(pairs.is_empty()),
        Err(_) => panic!("empty list refused"),
    }
}

#[test]
fn lookup_orders_by_hash_then_index() {
    let hashes: Vec<isize> = vec![5, -2, 5, 0, -2, 9];
    let lookup = build_lookup(&hashes);
    assert_eq!(lookup, vec![(-2, 1), (-2, 4), (0, 3), (5, 0), (5, 2), (9, 5)]);
    assert_eq!(hash_run_start(&lookup, 5), 3);
    assert_eq!(build_lookup(&vec![]), vec![]);
}
