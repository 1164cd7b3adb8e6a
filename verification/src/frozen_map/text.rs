//! Text for keys and values: decimal numerals, and the `Debug` text of
//! strings.

use vstd::prelude::*;
use vstd::string::StringExecFns;
use vstd::utf8::{is_ascii_chars, is_ascii_chars_encode_utf8, is_ascii_chars_nat_bound};

verus! {

/// The character of the decimal digit `d`.
pub open spec fn digit_char(d: int) -> char {
    if d == 0 { '0' }
    else if d == 1 { '1' }
    else if d == 2 { '2' }
    else if d == 3 { '3' }
    else if d == 4 { '4' }
    else if d == 5 { '5' }
    else if d == 6 { '6' }
    else if d == 7 { '7' }
    else if d == 8 { '8' }
    else { '9' }
}

/// The decimal digits of `n`, most significant first, without leading zeros.
pub open spec fn decimal_digits(n: nat) -> Seq<char>
    decreases n,
{
    if n < 10 {
        seq![digit_char(n as int)]
    } else {
        decimal_digits(n / 10).push(digit_char((n % 10) as int))
    }
}

/// The decimal numeral of `x`, with a leading `-` when it is negative.
pub open spec fn decimal_text(x: int) -> Seq<char> {
    if x < 0 {
        seq!['-'] + decimal_digits((-x) as nat)
    } else {
        decimal_digits(x as nat)
    }
}

fn digit_str(d: u128) -> (s: &'static str)
    requires
        d < 10,
    ensures
        s@ == seq![digit_char(d as int)],
{
    if d == 0 {
        proof { reveal_strlit("0"); }
        "0"
    } else if d == 1 {
        proof { reveal_strlit("1"); }
        "1"
    } else if d == 2 {
        proof { reveal_strlit("2"); }
        "2"
    } else if d == 3 {
        proof { reveal_strlit("3"); }
        "3"
    } else if d == 4 {
        proof { reveal_strlit("4"); }
        "4"
    } else if d == 5 {
        proof { reveal_strlit("5"); }
        "5"
    } else if d == 6 {
        proof { reveal_strlit("6"); }
        "6"
    } else if d == 7 {
        proof { reveal_strlit("7"); }
        "7"
    } else if d == 8 {
        proof { reveal_strlit("8"); }
        "8"
    } else {
        proof { reveal_strlit("9"); }
        "9"
    }
}

/// Appends the decimal digits of `n` to `out`.
fn push_digits(out: &mut String, n: u128)
    ensures
        final(out)@ == old(out)@ + decimal_digits(n as nat),
    decreases n,
{
    if n >= 10 {
        push_digits(out, n / 10);
    }
    let d = digit_str(n % 10);
    out.append(d);
}

/// The decimal numeral of `n`.
pub fn unsigned_text(n: u128) -> (s: String)
    ensures
        s@ == decimal_text(n as int),
{
    let mut s = String::new();
    push_digits(&mut s, n);
    s
}

/// The decimal numeral of `x`, with a leading `-` when it is negative.
pub fn signed_text(x: i128) -> (s: String)
    ensures
        s@ == decimal_text(x as int),
{
    let mut s = String::new();
    if x < 0 {
        proof {
            reveal_strlit("-");
        }
        s.append("-");
        let magnitude: u128 = ((-(x + 1)) as u128) + 1;
        push_digits(&mut s, magnitude);
    } else {
        push_digits(&mut s, x as u128);
    }
    s
}

/// The text of a boolean: `true` or `false`.
pub open spec fn bool_text(b: bool) -> Seq<char> {
    if b {
        seq!['t', 'r', 'u', 'e']
    } else {
        seq!['f', 'a', 'l', 's', 'e']
    }
}

/// Returns `true` or `false`.
pub fn bool_str(b: bool) -> (s: String)
    ensures
        s@ == bool_text(b),
{
    if b {
        proof {
            reveal_strlit("true");
        }
        String::from_str("true")
    } else {
        proof {
            reveal_strlit("false");
        }
        String::from_str("false")
    }
}

/// The text that `{:?}` gives for a string with the characters `s`: the
/// string in double quotes, with its characters escaped.
pub uninterp spec fn str_debug_text(s: Seq<char>) -> Seq<char>;

/// Formats `s` with `{:?}` (`<str as Debug>::fmt`).
///
/// Its result is named [`str_debug_text`]: a function of the characters of
/// `s` alone, not written out here.
#[verifier::external_body]
pub fn str_debug(s: &str) -> (r: String)
    ensures
        r@ == str_debug_text(s@),
{
    format!("{:?}", s)
}

/// A character that `{:?}` writes unchanged inside a string: printable
/// ASCII other than `"`, `\` and `'`.
pub open spec fn is_plain_char(c: char) -> bool {
    &&& ' ' <= c <= '~'
    &&& c != '"'
    &&& c != '\\'
    &&& c != '\''
}

/// Every character of `s` is plain.
pub open spec fn all_plain(s: Seq<char>) -> bool {
    forall|i: int| 0 <= i < s.len() ==> is_plain_char(#[trigger] s[i])
}

/// `s` between double quotes.
pub open spec fn quoted(s: Seq<char>) -> Seq<char> {
    seq!['"'] + s + seq!['"']
}

/// The text that `{:?}` gives for a string with the characters `s`: a
/// string of plain characters between double quotes, unchanged; any other
/// string as [`str_debug_text`] names it.
pub open spec fn string_debug_text(s: Seq<char>) -> Seq<char> {
    if all_plain(s) {
        quoted(s)
    } else {
        str_debug_text(s)
    }
}

/// Whether every character of `s` is plain.
fn is_plain_str(s: &str) -> (r: bool)
    ensures
        r == all_plain(s@),
{
    if !s.is_ascii() {
        proof {
            if all_plain(s@) {
                assert forall|i: int| 0 <= i < s@.len() implies '\0' <= #[trigger] s@[i] <= '\u{7f}' by {
                    assert(is_plain_char(s@[i]));
                }
                assert(is_ascii_chars(s@));
            }
        }
        return false;
    }
    let b = s.as_bytes();
    proof {
        is_ascii_chars_encode_utf8(s@);
        is_ascii_chars_nat_bound(s@);
    }
    let n = b.len();
    let mut i: usize = 0;
    while i < n
        invariant
            n == b.len(),
            n == s@.len(),
            is_ascii_chars(s@),
            forall|j: int| 0 <= j < n ==> (#[trigger] s@[j]) as u8 == b@[j],
            forall|j: int| 0 <= j < n ==> (#[trigger] s@[j] as nat) < 128,
            i <= n,
            forall|j: int| 0 <= j < i ==> is_plain_char(#[trigger] s@[j]),
        decreases n - i,
    {
        let x = b[i];
        proof {
            let c = s@[i as int];
            assert(c as u8 == x);
            assert((c as nat) < 128);
            assert(c as int == x as int);
        }
        if x < 0x20 || x > 0x7e || x == 0x22 || x == 0x5c || x == 0x27 {
            proof {
                assert(!is_plain_char(s@[i as int]));
            }
            return false;
        }
        i = i + 1;
    }
    true
}

/// Formats `s` as `{:?}` does: a string of plain characters is written
/// between double quotes here; any other string by [`str_debug`].
pub fn debug_str(s: &str) -> (r: String)
    ensures
        r@ == string_debug_text(s@),
        all_plain(s@) ==> r@ == quoted(s@),
{
    if is_plain_str(s) {
        let mut r = String::new();
        proof {
            reveal_strlit("\"");
        }
        r.append("\"");
        r.append(s);
        r.append("\"");
        proof {
            assert(r@ =~= quoted(s@));
        }
        r
    } else {
        str_debug(s)
    }
}

/// Returns a `String` with the characters of `s`.
pub fn str_text(s: &str) -> (r: String)
    ensures
        r@ == s@,
{
    String::from_str(s)
}

} // verus!
