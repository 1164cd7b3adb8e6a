//! What a frozen map asks of the types it stores: values can be copied,
//! compared for equality, hashed and formatted; keys are in addition
//! totally ordered.
//!
//! The traits are implemented here for the integer types, `bool`, `String`,
//! `&str` and pairs of values.

use super::bytes::{
    compare_bytes, lemma_encode_injective, lemma_str_lt_connected, lemma_str_lt_irreflexive,
    lemma_str_lt_transitive, str_lt,
};
use super::hashing::{hash_record, HashRecord};
use super::text::{
    all_plain, bool_str, bool_text, debug_str, decimal_text, quoted, signed_text, str_text,
    string_debug_text,
    unsigned_text,
};
use core::hash::Hash;
use vstd::prelude::*;
use vstd::string::StringExecFns;
use vstd::utf8::encode_utf8;

verus! {

/// The outcome of comparing two keys.
#[derive(PartialEq, Eq, Structural, Clone, Copy, Debug)]
pub enum KeyOrder {
    Less,
    Equal,
    Greater,
}

/// A type whose values a frozen map can hold.
///
/// A value is known to proofs by its view; the methods below are exact
/// on that view.
pub trait MapValue: View + Hash + Sized {
    /// A copy of the value, with the same view.
    fn clone_value(&self) -> (r: Self)
        ensures
            r@ == self@,
    ;

    /// Whether the two values have the same view.
    fn value_eq(&self, other: &Self) -> (r: bool)
        ensures
            r == (self@ == other@),
    ;

    /// Hashes the value with `ahash` (see `ahash_of`) and records that
    /// it was this value that was hashed.
    fn hashed(&self) -> (r: HashRecord<Self::V>)
        ensures
            r.source() == self@,
    {
        hash_record(self)
    }

    /// The `ahash` hash of the value (see `ahash_of`).
    fn hash_value(&self) -> u64 {
        self.hashed().get()
    }

    /// The text that `{:?}` gives for a value whose view is `v`.
    spec fn debug_text(v: Self::V) -> Seq<char>;

    /// Formats the value as `{:?}` does.
    fn fmt_debug(&self) -> (s: String)
        ensures
            s@ == Self::debug_text(self@),
    ;
}

/// A type whose values can key a frozen map: a [`MapValue`] whose views
/// are totally ordered by [`MapKey::key_lt`].
pub trait MapKey: MapValue {
    /// The strict order of keys, on their views.
    spec fn key_lt(a: Self::V, b: Self::V) -> bool;

    proof fn lemma_key_lt_irreflexive(a: Self::V)
        ensures
            !Self::key_lt(a, a),
    ;

    proof fn lemma_key_lt_transitive(a: Self::V, b: Self::V, c: Self::V)
        requires
            Self::key_lt(a, b),
            Self::key_lt(b, c),
        ensures
            Self::key_lt(a, c),
    ;

    proof fn lemma_key_lt_connected(a: Self::V, b: Self::V)
        ensures
            a == b || Self::key_lt(a, b) || Self::key_lt(b, a),
    ;

    /// Compares `self` with `other`.
    fn compare_key(&self, other: &Self) -> (r: KeyOrder)
        ensures
            r == KeyOrder::Less <==> Self::key_lt(self@, other@),
            r == KeyOrder::Equal <==> self@ == other@,
            r == KeyOrder::Greater <==> Self::key_lt(other@, self@),
    ;
}

/// A type whose values have a `Display` text.
pub trait TextDisplay: View {
    /// The text that `{}` gives for a value whose view is `v`.
    spec fn display_text(v: Self::V) -> Seq<char>;

    /// Formats the value as `{}` does.
    fn fmt_display(&self) -> (s: String)
        ensures
            s@ == Self::display_text(self@),
    ;
}

impl MapValue for i32 {
    fn clone_value(&self) -> (r: Self) {
        *self
    }

    fn value_eq(&self, other: &Self) -> (r: bool) {
        *self == *other
    }

    open spec fn debug_text(v: i32) -> Seq<char> {
        decimal_text(v as int)
    }

    fn fmt_debug(&self) -> (s: String) {
        signed_text(*self as i128)
    }
}

impl MapKey for i32 {
    open spec fn key_lt(a: i32, b: i32) -> bool {
        a < b
    }

    proof fn lemma_key_lt_irreflexive(a: i32) {
    }

    proof fn lemma_key_lt_transitive(a: i32, b: i32, c: i32) {
    }

    proof fn lemma_key_lt_connected(a: i32, b: i32) {
    }

    fn compare_key(&self, other: &Self) -> (r: KeyOrder) {
        if *self < *other {
            KeyOrder::Less
        } else if *self == *other {
            KeyOrder::Equal
        } else {
            KeyOrder::Greater
        }
    }
}

impl TextDisplay for i32 {
    open spec fn display_text(v: i32) -> Seq<char> {
        decimal_text(v as int)
    }

    fn fmt_display(&self) -> (s: String) {
        signed_text(*self as i128)
    }
}

impl MapValue for i64 {
    fn clone_value(&self) -> (r: Self) {
        *self
    }

    fn value_eq(&self, other: &Self) -> (r: bool) {
        *self == *other
    }

    open spec fn debug_text(v: i64) -> Seq<char> {
        decimal_text(v as int)
    }

    fn fmt_debug(&self) -> (s: String) {
        signed_text(*self as i128)
    }
}

impl MapKey for i64 {
    open spec fn key_lt(a: i64, b: i64) -> bool {
        a < b
    }

    proof fn lemma_key_lt_irreflexive(a: i64) {
    }

    proof fn lemma_key_lt_transitive(a: i64, b: i64, c: i64) {
    }

    proof fn lemma_key_lt_connected(a: i64, b: i64) {
    }

    fn compare_key(&self, other: &Self) -> (r: KeyOrder) {
        if *self < *other {
            KeyOrder::Less
        } else if *self == *other {
            KeyOrder::Equal
        } else {
            KeyOrder::Greater
        }
    }
}

impl TextDisplay for i64 {
    open spec fn display_text(v: i64) -> Seq<char> {
        decimal_text(v as int)
    }

    fn fmt_display(&self) -> (s: String) {
        signed_text(*self as i128)
    }
}

impl MapValue for u32 {
    fn clone_value(&self) -> (r: Self) {
        *self
    }

    fn value_eq(&self, other: &Self) -> (r: bool) {
        *self == *other
    }

    open spec fn debug_text(v: u32) -> Seq<char> {
        decimal_text(v as int)
    }

    fn fmt_debug(&self) -> (s: String) {
        unsigned_text(*self as u128)
    }
}

impl MapKey for u32 {
    open spec fn key_lt(a: u32, b: u32) -> bool {
        a < b
    }

    proof fn lemma_key_lt_irreflexive(a: u32) {
    }

    proof fn lemma_key_lt_transitive(a: u32, b: u32, c: u32) {
    }

    proof fn lemma_key_lt_connected(a: u32, b: u32) {
    }

    fn compare_key(&self, other: &Self) -> (r: KeyOrder) {
        if *self < *other {
            KeyOrder::Less
        } else if *self == *other {
            KeyOrder::Equal
        } else {
            KeyOrder::Greater
        }
    }
}

impl TextDisplay for u32 {
    open spec fn display_text(v: u32) -> Seq<char> {
        decimal_text(v as int)
    }

    fn fmt_display(&self) -> (s: String) {
        unsigned_text(*self as u128)
    }
}

impl MapValue for u64 {
    fn clone_value(&self) -> (r: Self) {
        *self
    }

    fn value_eq(&self, other: &Self) -> (r: bool) {
        *self == *other
    }

    open spec fn debug_text(v: u64) -> Seq<char> {
        decimal_text(v as int)
    }

    fn fmt_debug(&self) -> (s: String) {
        unsigned_text(*self as u128)
    }
}

impl MapKey for u64 {
    open spec fn key_lt(a: u64, b: u64) -> bool {
        a < b
    }

    proof fn lemma_key_lt_irreflexive(a: u64) {
    }

    proof fn lemma_key_lt_transitive(a: u64, b: u64, c: u64) {
    }

    proof fn lemma_key_lt_connected(a: u64, b: u64) {
    }

    fn compare_key(&self, other: &Self) -> (r: KeyOrder) {
        if *self < *other {
            KeyOrder::Less
        } else if *self == *other {
            KeyOrder::Equal
        } else {
            KeyOrder::Greater
        }
    }
}

impl TextDisplay for u64 {
    open spec fn display_text(v: u64) -> Seq<char> {
        decimal_text(v as int)
    }

    fn fmt_display(&self) -> (s: String) {
        unsigned_text(*self as u128)
    }
}

impl MapValue for u128 {
    fn clone_value(&self) -> (r: Self) {
        *self
    }

    fn value_eq(&self, other: &Self) -> (r: bool) {
        *self == *other
    }

    open spec fn debug_text(v: u128) -> Seq<char> {
        decimal_text(v as int)
    }

    fn fmt_debug(&self) -> (s: String) {
        unsigned_text(*self as u128)
    }
}

impl MapKey for u128 {
    open spec fn key_lt(a: u128, b: u128) -> bool {
        a < b
    }

    proof fn lemma_key_lt_irreflexive(a: u128) {
    }

    proof fn lemma_key_lt_transitive(a: u128, b: u128, c: u128) {
    }

    proof fn lemma_key_lt_connected(a: u128, b: u128) {
    }

    fn compare_key(&self, other: &Self) -> (r: KeyOrder) {
        if *self < *other {
            KeyOrder::Less
        } else if *self == *other {
            KeyOrder::Equal
        } else {
            KeyOrder::Greater
        }
    }
}

impl TextDisplay for u128 {
    open spec fn display_text(v: u128) -> Seq<char> {
        decimal_text(v as int)
    }

    fn fmt_display(&self) -> (s: String) {
        unsigned_text(*self as u128)
    }
}

impl MapValue for usize {
    fn clone_value(&self) -> (r: Self) {
        *self
    }

    fn value_eq(&self, other: &Self) -> (r: bool) {
        *self == *other
    }

    open spec fn debug_text(v: usize) -> Seq<char> {
        decimal_text(v as int)
    }

    fn fmt_debug(&self) -> (s: String) {
        unsigned_text(*self as u128)
    }
}

impl MapKey for usize {
    open spec fn key_lt(a: usize, b: usize) -> bool {
        a < b
    }

    proof fn lemma_key_lt_irreflexive(a: usize) {
    }

    proof fn lemma_key_lt_transitive(a: usize, b: usize, c: usize) {
    }

    proof fn lemma_key_lt_connected(a: usize, b: usize) {
    }

    fn compare_key(&self, other: &Self) -> (r: KeyOrder) {
        if *self < *other {
            KeyOrder::Less
        } else if *self == *other {
            KeyOrder::Equal
        } else {
            KeyOrder::Greater
        }
    }
}

impl TextDisplay for usize {
    open spec fn display_text(v: usize) -> Seq<char> {
        decimal_text(v as int)
    }

    fn fmt_display(&self) -> (s: String) {
        unsigned_text(*self as u128)
    }
}

impl MapValue for bool {
    fn clone_value(&self) -> (r: Self) {
        *self
    }

    fn value_eq(&self, other: &Self) -> (r: bool) {
        *self == *other
    }

    open spec fn debug_text(v: bool) -> Seq<char> {
        bool_text(v)
    }

    fn fmt_debug(&self) -> (s: String) {
        bool_str(*self)
    }
}

impl TextDisplay for bool {
    open spec fn display_text(v: bool) -> Seq<char> {
        bool_text(v)
    }

    fn fmt_display(&self) -> (s: String) {
        bool_str(*self)
    }
}

/// Compares two strings by their UTF-8 bytes.
fn compare_strs(a: &str, b: &str) -> (r: KeyOrder)
    ensures
        r == KeyOrder::Less <==> str_lt(a@, b@),
        r == KeyOrder::Equal <==> a@ == b@,
        r == KeyOrder::Greater <==> str_lt(b@, a@),
{
    let r = compare_bytes(a.as_bytes(), b.as_bytes());
    proof {
        if encode_utf8(a@) == encode_utf8(b@) {
            lemma_encode_injective(a@, b@);
        }
    }
    r
}

impl MapValue for String {
    fn clone_value(&self) -> (r: Self) {
        self.clone()
    }

    fn value_eq(&self, other: &Self) -> (r: bool) {
        *self == *other
    }

    open spec fn debug_text(v: Seq<char>) -> Seq<char> {
        string_debug_text(v)
    }

    fn fmt_debug(&self) -> (s: String)
        ensures
            all_plain(self@) ==> s@ == quoted(self@),
    {
        debug_str(self.as_str())
    }
}

impl MapKey for String {
    open spec fn key_lt(a: Seq<char>, b: Seq<char>) -> bool {
        str_lt(a, b)
    }

    proof fn lemma_key_lt_irreflexive(a: Seq<char>) {
        lemma_str_lt_irreflexive(a);
    }

    proof fn lemma_key_lt_transitive(a: Seq<char>, b: Seq<char>, c: Seq<char>) {
        lemma_str_lt_transitive(a, b, c);
    }

    proof fn lemma_key_lt_connected(a: Seq<char>, b: Seq<char>) {
        lemma_str_lt_connected(a, b);
    }

    fn compare_key(&self, other: &Self) -> (r: KeyOrder) {
        compare_strs(self.as_str(), other.as_str())
    }
}

impl TextDisplay for String {
    open spec fn display_text(v: Seq<char>) -> Seq<char> {
        v
    }

    fn fmt_display(&self) -> (s: String) {
        str_text(self.as_str())
    }
}

impl<'a> MapValue for &'a str {
    fn clone_value(&self) -> (r: Self) {
        *self
    }

    fn value_eq(&self, other: &Self) -> (r: bool) {
        compare_strs(*self, *other) == KeyOrder::Equal
    }

    open spec fn debug_text(v: Seq<char>) -> Seq<char> {
        string_debug_text(v)
    }

    fn fmt_debug(&self) -> (s: String)
        ensures
            all_plain(self@) ==> s@ == quoted(self@),
    {
        debug_str(*self)
    }
}

impl<'a> MapKey for &'a str {
    open spec fn key_lt(a: Seq<char>, b: Seq<char>) -> bool {
        str_lt(a, b)
    }

    proof fn lemma_key_lt_irreflexive(a: Seq<char>) {
        lemma_str_lt_irreflexive(a);
    }

    proof fn lemma_key_lt_transitive(a: Seq<char>, b: Seq<char>, c: Seq<char>) {
        lemma_str_lt_transitive(a, b, c);
    }

    proof fn lemma_key_lt_connected(a: Seq<char>, b: Seq<char>) {
        lemma_str_lt_connected(a, b);
    }

    fn compare_key(&self, other: &Self) -> (r: KeyOrder) {
        compare_strs(*self, *other)
    }
}

impl<'a> TextDisplay for &'a str {
    open spec fn display_text(v: Seq<char>) -> Seq<char> {
        v
    }

    fn fmt_display(&self) -> (s: String) {
        str_text(*self)
    }
}

/// The text `(a, b)` of a pair whose parts have texts `a` and `b`.
pub open spec fn pair_text(a: Seq<char>, b: Seq<char>) -> Seq<char> {
    seq!['('] + a + seq![',', ' '] + b + seq![')']
}

impl<A: MapValue, B: MapValue> MapValue for (A, B) {
    fn clone_value(&self) -> (r: Self) {
        (self.0.clone_value(), self.1.clone_value())
    }

    fn value_eq(&self, other: &Self) -> (r: bool) {
        self.0.value_eq(&other.0) && self.1.value_eq(&other.1)
    }

    open spec fn debug_text(v: (A::V, B::V)) -> Seq<char> {
        pair_text(A::debug_text(v.0), B::debug_text(v.1))
    }

    fn fmt_debug(&self) -> (s: String) {
        let mut s = String::new();
        proof {
            reveal_strlit("(");
            reveal_strlit(", ");
            reveal_strlit(")");
        }
        s.append("(");
        let a = self.0.fmt_debug();
        s.append(a.as_str());
        s.append(", ");
        let b = self.1.fmt_debug();
        s.append(b.as_str());
        s.append(")");
        proof {
            assert(s@ =~= pair_text(A::debug_text(self.0@), B::debug_text(self.1@)));
        }
        s
    }
}

} // verus!
