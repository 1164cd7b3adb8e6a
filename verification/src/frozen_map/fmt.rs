//! Text renderings of a [`FrozenMap`]: the `Debug` form, the `Display`
//! form and the indented `pretty_repr` form.
//!
//! Entries are written in increasing key order.

use super::key::{MapKey, MapValue, TextDisplay};
use super::map::FrozenMap;
use vstd::prelude::*;
use vstd::string::StringExecFns;

verus! {

/// `frozendict({` + `body` + `})`.
pub open spec fn wrapped(body: Seq<char>) -> Seq<char> {
    seq!['f', 'r', 'o', 'z', 'e', 'n', 'd', 'i', 'c', 't', '(', '{'] + body + seq!['}', ')']
}

/// The texts of `items`, separated by `, `.
pub open spec fn joined(items: Seq<Seq<char>>) -> Seq<char>
    decreases items.len(),
{
    if items.len() == 0 {
        Seq::empty()
    } else if items.len() == 1 {
        items[0]
    } else {
        joined(items.drop_last()) + seq![',', ' '] + items.last()
    }
}

/// `key: value`.
pub open spec fn entry_text(key: Seq<char>, value: Seq<char>) -> Seq<char> {
    key + seq![':', ' '] + value
}

/// The `{:?}` texts of the entries `es`.
pub open spec fn debug_items<K: MapValue, V: MapValue>(es: Seq<(K::V, V::V)>) -> Seq<Seq<char>> {
    es.map_values(|e: (K::V, V::V)| entry_text(K::debug_text(e.0), V::debug_text(e.1)))
}

/// The `{}` texts of the entries `es`.
pub open spec fn display_items<K: TextDisplay, V: TextDisplay>(es: Seq<(K::V, V::V)>) -> Seq<Seq<char>> {
    es.map_values(|e: (K::V, V::V)| entry_text(K::display_text(e.0), V::display_text(e.1)))
}

/// `n` spaces.
pub open spec fn spaces(n: nat) -> Seq<char> {
    Seq::new(n, |i: int| ' ')
}

/// One line per item: `indent`, the item, `,` and a newline.
pub open spec fn lines(items: Seq<Seq<char>>, indent: Seq<char>) -> Seq<char>
    decreases items.len(),
{
    if items.len() == 0 {
        Seq::empty()
    } else {
        lines(items.drop_last(), indent) + indent + items.last() + seq![',', '\n']
    }
}

/// The text of `pretty_repr`: `frozendict({`, a newline, one line per
/// entry, and `})`.
pub open spec fn pretty_text(items: Seq<Seq<char>>, indent: Seq<char>) -> Seq<char> {
    seq!['f', 'r', 'o', 'z', 'e', 'n', 'd', 'i', 'c', 't', '(', '{', '\n'] + lines(items, indent)
        + seq!['}', ')']
}

proof fn lemma_take_last<A>(s: Seq<A>, i: int)
    requires
        0 <= i < s.len(),
    ensures
        s.take(i + 1).drop_last() == s.take(i),
        s.take(i + 1).last() == s[i],
{
    assert(s.take(i + 1).drop_last() =~= s.take(i));
}

/// Appends the texts of `items` to `out`, separated by `, `.
fn append_joined(out: &mut String, items: &Vec<String>)
    ensures
        final(out)@ == old(out)@ + joined(views_of_strings(items@)),
{
    let n = items.len();
    let ghost start = out@;
    let ghost texts = views_of_strings(items@);
    let mut i: usize = 0;
    proof {
        reveal_strlit(", ");
        assert(texts.take(0) =~= Seq::<Seq<char>>::empty());
        assert(out@ =~= start + joined(texts.take(0)));
    }
    while i < n
        invariant
            n == items.len(),
            texts == views_of_strings(items@),
            texts.len() == n,
            i <= n,
            out@ == start + joined(texts.take(i as int)),
        decreases n - i,
    {
        proof {
            reveal_strlit(", ");
            lemma_take_last(texts, i as int);
            assert(texts[i as int] == items@[i as int]@);
        }
        if i > 0 {
            out.append(", ");
        }
        out.append(items[i].as_str());
        proof {
            if i == 0 {
                assert(texts.take(1) =~= seq![texts[0]]);
            }
            assert(out@ =~= start + joined(texts.take(i + 1)));
        }
        i = i + 1;
    }
    proof {
        assert(texts.take(n as int) =~= texts);
    }
}

/// The characters of each string of `s`.
pub open spec fn views_of_strings(s: Seq<String>) -> Seq<Seq<char>> {
    s.map_values(|x: String| x@)
}

impl<K: MapKey, V: MapValue> FrozenMap<K, V> {
    /// The `{:?}` text of each entry, `key: value`, in increasing key order.
    fn debug_entries(&self) -> (r: Vec<String>)
        ensures
            views_of_strings(r@) == debug_items::<K, V>(self.entries()),
    {
        let items = self.items();
        let n = items.len();
        let mut r: Vec<String> = Vec::with_capacity(n);
        let mut i: usize = 0;
        proof {
            reveal_strlit(": ");
        }
        while i < n
            invariant
                n == items.len(),
                n == self.entries().len(),
                forall|t: int|
                    0 <= t < n ==> (#[trigger] items@[t]).0@ == self.entries()[t].0 && items@[t].1@
                        == self.entries()[t].1,
                i <= n,
                views_of_strings(r@) == debug_items::<K, V>(self.entries()).take(i as int),
            decreases n - i,
        {
            proof {
                reveal_strlit(": ");
            }
            let mut line = items[i].0.fmt_debug();
            line.append(": ");
            let v = items[i].1.fmt_debug();
            line.append(v.as_str());
            let ghost old_r = r@;
            r.push(line);
            proof {
                assert(views_of_strings(r@) =~= views_of_strings(old_r).push(line@));
                assert(line@ =~= entry_text(K::debug_text(self.entries()[i as int].0), V::debug_text(self.entries()[i as int].1)));
                assert(views_of_strings(r@) =~= debug_items::<K, V>(self.entries()).take(i + 1));
            }
            i = i + 1;
        }
        proof {
            assert(debug_items::<K, V>(self.entries()).take(n as int) =~= debug_items::<K, V>(self.entries()));
        }
        r
    }

    /// The `Debug` text of the map: `frozendict({k: v, ...})` with keys and
    /// values formatted by `{:?}`, in increasing key order.
    pub fn debug_string(&self) -> (s: String)
        ensures
            s@ == wrapped(joined(debug_items::<K, V>(self.entries()))),
    {
        let items = self.debug_entries();
        let mut s = String::new();
        proof {
            reveal_strlit("frozendict({");
            reveal_strlit("})");
        }
        s.append("frozendict({");
        append_joined(&mut s, &items);
        s.append("})");
        proof {
            assert(s@ =~= wrapped(joined(debug_items::<K, V>(self.entries()))));
        }
        s
    }

    /// Returns an indented multi-line text of the map:
    ///
    /// ```text
    /// frozendict({
    ///     "key1": value1,
    ///     "key2": value2,
    /// })
    /// ```
    ///
    /// Each entry line starts with `num_spaces` spaces; keys and values are
    /// formatted by `{:?}`.
    pub fn pretty_repr(&self, num_spaces: usize) -> (s: String)
        ensures
            s@ == pretty_text(debug_items::<K, V>(self.entries()), spaces(num_spaces as nat)),
    {
        let items = self.debug_entries();
        let ghost texts = views_of_strings(items@);
        let mut indent = String::new();
        let mut k: usize = 0;
        proof {
            reveal_strlit(" ");
            assert(indent@ =~= spaces(0));
        }
        while k < num_spaces
            invariant
                k <= num_spaces,
                indent@ == spaces(k as nat),
            decreases num_spaces - k,
        {
            proof {
                reveal_strlit(" ");
            }
            indent.append(" ");
            k = k + 1;
            proof {
                assert(indent@ =~= spaces(k as nat));
            }
        }
        let mut s = String::new();
        proof {
            reveal_strlit("frozendict({\n");
            reveal_strlit(",\n");
            reveal_strlit("})");
        }
        s.append("frozendict({\n");
        let ghost head = s@;
        let n = items.len();
        let mut i: usize = 0;
        proof {
            assert(texts.take(0) =~= Seq::<Seq<char>>::empty());
            assert(s@ =~= head + lines(texts.take(0), indent@));
        }
        while i < n
            invariant
                n == items.len(),
                texts == views_of_strings(items@),
                texts.len() == n,
                i <= n,
                s@ == head + lines(texts.take(i as int), indent@),
            decreases n - i,
        {
            proof {
                reveal_strlit(",\n");
                lemma_take_last(texts, i as int);
                assert(texts[i as int] == items@[i as int]@);
            }
            s.append(indent.as_str());
            s.append(items[i].as_str());
            s.append(",\n");
            proof {
                assert(s@ =~= head + lines(texts.take(i + 1), indent@));
            }
            i = i + 1;
        }
        s.append("})");
        proof {
            assert(texts.take(n as int) =~= texts);
            assert(s@ =~= pretty_text(debug_items::<K, V>(self.entries()), spaces(num_spaces as nat)));
        }
        s
    }
}

impl<K: MapKey + TextDisplay, V: MapValue + TextDisplay> FrozenMap<K, V> {
    /// The `Display` text of the map: `frozendict({k: v, ...})` with keys
    /// and values formatted by `{}`, in increasing key order.
    pub fn display_string(&self) -> (s: String)
        ensures
            s@ == wrapped(joined(display_items::<K, V>(self.entries()))),
    {
        let items = self.items();
        let n = items.len();
        let mut texts: Vec<String> = Vec::with_capacity(n);
        let mut i: usize = 0;
        proof {
            reveal_strlit(": ");
        }
        while i < n
            invariant
                n == items.len(),
                n == self.entries().len(),
                forall|t: int|
                    0 <= t < n ==> (#[trigger] items@[t]).0@ == self.entries()[t].0 && items@[t].1@
                        == self.entries()[t].1,
                i <= n,
                views_of_strings(texts@) == display_items::<K, V>(self.entries()).take(i as int),
            decreases n - i,
        {
            proof {
                reveal_strlit(": ");
            }
            let mut line = items[i].0.fmt_display();
            line.append(": ");
            let v = items[i].1.fmt_display();
            line.append(v.as_str());
            let ghost old_texts = texts@;
            texts.push(line);
            proof {
                assert(views_of_strings(texts@) =~= views_of_strings(old_texts).push(line@));
                assert(line@ =~= entry_text(K::display_text(self.entries()[i as int].0), V::display_text(self.entries()[i as int].1)));
                assert(views_of_strings(texts@) =~= display_items::<K, V>(self.entries()).take(i + 1));
            }
            i = i + 1;
        }
        proof {
            assert(display_items::<K, V>(self.entries()).take(n as int) =~= display_items::<K, V>(self.entries()));
        }
        let mut s = String::new();
        proof {
            reveal_strlit("frozendict({");
            reveal_strlit("})");
        }
        s.append("frozendict({");
        append_joined(&mut s, &texts);
        s.append("})");
        proof {
            assert(s@ =~= wrapped(joined(display_items::<K, V>(self.entries()))));
        }
        s
    }
}

} // verus!
