//! Character and text helpers shared by every stage: conversions between
//! `&str`, `String` and `Vec<char>`, decimal rendering of integers, the
//! Unicode classes the lexer and assembler test, and the `Debug` renderings of
//! text that diagnostics quote.

use vstd::prelude::*;
use vstd::string::*;

verus! {

broadcast use vstd::string::group_string_axioms;

// ---------------------------------------------------------------------------
// Names for std functions whose results take Unicode tables to state.
// ---------------------------------------------------------------------------

/// What `char::is_alphanumeric` answers for a character.
pub uninterp spec fn alphanumeric(c: char) -> bool;

/// The text that `format!("{:?}", s)` produces for a string slice.
pub uninterp spec fn str_debug_text(s: Seq<char>) -> Seq<char>;

/// The text that `format!("{:?}", c)` produces for a character.
pub uninterp spec fn char_debug_text(c: char) -> Seq<char>;

/// What `str::to_uppercase` returns for a text.
pub uninterp spec fn upper_text(s: Seq<char>) -> Seq<char>;

/// What `str::to_lowercase` returns for a text.
pub uninterp spec fn lower_text(s: Seq<char>) -> Seq<char>;

/// Calls `char::is_alphanumeric`; the contract only names its answer
/// (Unicode's Alphabetic or Numeric property), which is not spelled out here.
#[verifier::external_body]
pub(crate) fn is_alphanumeric(c: char) -> (r: bool)
    ensures
        r == alphanumeric(c),
{
    c.is_alphanumeric()
}

/// Calls the `Debug` formatting of `str` (`format!("{:?}", s)`); the contract
/// names the quoted, escaped text without spelling out std's escaping rules.
#[verifier::external_body]
pub(crate) fn debug_str(s: &str) -> (r: String)
    ensures
        r@ == str_debug_text(s@),
{
    format!("{:?}", s)
}

/// Calls the `Debug` formatting of `char` (`format!("{:?}", c)`); the contract
/// names the quoted, escaped text without spelling out std's escaping rules.
#[verifier::external_body]
pub(crate) fn debug_char(c: char) -> (r: String)
    ensures
        r@ == char_debug_text(c),
{
    format!("{:?}", c)
}

/// Calls `str::to_uppercase`; the contract names the result, which follows
/// Unicode's case tables (and may change the length of the text).
#[verifier::external_body]
pub(crate) fn to_upper(s: &str) -> (r: String)
    ensures
        r@ == upper_text(s@),
{
    s.to_uppercase()
}

/// Calls `str::to_lowercase`; the contract names the result, which follows
/// Unicode's case tables (and may change the length of the text).
#[verifier::external_body]
pub(crate) fn to_lower(s: &str) -> (r: String)
    ensures
        r@ == lower_text(s@),
{
    s.to_lowercase()
}

/// Calls `String::push`: the character is appended at the end.
#[verifier::external_body]
pub(crate) fn push_char(s: &mut String, c: char)
    ensures
        final(s)@ == old(s)@.push(c),
{
    s.push(c);
}

// ---------------------------------------------------------------------------
// Conversions.
// ---------------------------------------------------------------------------

/// The characters of a string slice, in order.
pub fn chars_of(s: &str) -> (r: Vec<char>)
    ensures
        r@ == s@,
{
    let mut r: Vec<char> = Vec::new();
    for c in it: s.chars()
        invariant
            r@ == it.seq().take(it.index()),
    {
        r.push(c);
    }
    r
}

/// A `String` holding the given characters.
pub fn text_of(v: &Vec<char>) -> (r: String)
    ensures
        r@ == v@,
{
    let mut r = String::new();
    let mut i: usize = 0;
    while i < v.len()
        invariant
            i <= v.len(),
            r@ == v@.take(i as int),
        decreases v.len() - i,
    {
        push_char(&mut r, v[i]);
        i += 1;
        assert(r@ == v@.take(i as int));
    }
    assert(v@.take(v.len() as int) == v@);
    r
}

/// A `String` holding the characters of a slice.
pub fn text_of_slice(v: &[char]) -> (r: String)
    ensures
        r@ == v@,
{
    let mut r = String::new();
    let mut i: usize = 0;
    while i < v.len()
        invariant
            i <= v.len(),
            r@ == v@.take(i as int),
        decreases v.len() - i,
    {
        push_char(&mut r, v[i]);
        i += 1;
        assert(r@ == v@.take(i as int));
    }
    assert(v@.take(v.len() as int) == v@);
    r
}

/// A fresh `String` equal to a string slice.
pub fn owned(s: &str) -> (r: String)
    ensures
        r@ == s@,
{
    s.to_owned()
}

/// Whether a character sequence spells a given string slice.
pub fn same_chars(v: &[char], s: &str) -> (r: bool)
    ensures
        r == (v@ == s@),
{
    let w = chars_of(s);
    chars_eq(v, w.as_slice())
}

/// Whether two character sequences are equal.
pub fn chars_eq(v: &[char], w: &[char]) -> (r: bool)
    ensures
        r == (v@ == w@),
{
    if v.len() != w.len() {
        return false;
    }
    let mut i: usize = 0;
    while i < v.len()
        invariant
            i <= v.len(),
            v@.len() == w@.len(),
            forall|j: int| 0 <= j < i ==> v@[j] == w@[j],
        decreases v.len() - i,
    {
        if v[i] != w[i] {
            return false;
        }
        i += 1;
    }
    assert(v@ == w@);
    true
}

/// Whether two `String`s hold the same text.
pub fn text_eq(a: &String, b: &String) -> (r: bool)
    ensures
        r == (a@ == b@),
{
    a.eq(b)
}

/// A copy of a `String`.
pub fn copy_text(s: &String) -> (r: String)
    ensures
        r@ == s@,
{
    s.clone()
}

// ---------------------------------------------------------------------------
// Character classes.
// ---------------------------------------------------------------------------

/// An ASCII decimal digit.
pub open spec fn is_digit(c: char) -> bool {
    48 <= (c as u32) <= 57
}

/// An ASCII letter.
pub open spec fn is_ascii_letter(c: char) -> bool {
    (65 <= (c as u32) <= 90) || (97 <= (c as u32) <= 122)
}

/// Unicode `White_Space`, which is what `char::is_whitespace` tests.
pub open spec fn is_white(c: char) -> bool {
    let u = c as u32;
    (9 <= u <= 13) || u == 32 || u == 0x85 || u == 0xa0 || u == 0x1680 || (0x2000 <= u <= 0x200a)
        || u == 0x2028 || u == 0x2029 || u == 0x202f || u == 0x205f || u == 0x3000
}

pub fn digit(c: char) -> (r: bool)
    ensures
        r == is_digit(c),
{
    let u = c as u32;
    48 <= u && u <= 57
}

pub fn ascii_letter(c: char) -> (r: bool)
    ensures
        r == is_ascii_letter(c),
{
    let u = c as u32;
    (65 <= u && u <= 90) || (97 <= u && u <= 122)
}

pub fn whitespace(c: char) -> (r: bool)
    ensures
        r == is_white(c),
{
    let u = c as u32;
    (9 <= u && u <= 13) || u == 32 || u == 0x85 || u == 0xa0 || u == 0x1680 || (0x2000 <= u
        && u <= 0x200a) || u == 0x2028 || u == 0x2029 || u == 0x202f || u == 0x205f || u == 0x3000
}

/// The value of a decimal digit character.
pub open spec fn digit_value(c: char) -> nat {
    ((c as u32) - 48) as nat
}

// ---------------------------------------------------------------------------
// Decimal numerals.
// ---------------------------------------------------------------------------

/// The character of a decimal digit value below ten.
pub open spec fn digit_char(d: nat) -> char {
    if d == 0 {
        '0'
    } else if d == 1 {
        '1'
    } else if d == 2 {
        '2'
    } else if d == 3 {
        '3'
    } else if d == 4 {
        '4'
    } else if d == 5 {
        '5'
    } else if d == 6 {
        '6'
    } else if d == 7 {
        '7'
    } else if d == 8 {
        '8'
    } else {
        '9'
    }
}

/// The decimal numeral of a natural number, without leading zeros
/// (what `Display` writes for an unsigned integer).
pub open spec fn dec_nat(n: nat) -> Seq<char>
    decreases n,
{
    if n < 10 {
        seq![digit_char(n)]
    } else {
        dec_nat(n / 10).push(digit_char(n % 10))
    }
}

/// A numeral has at least one character, each a digit (never `_`), and two
/// or more from ten on.
pub proof fn lemma_dec_nat_shape(n: nat)
    ensures
        dec_nat(n).len() >= 1,
        n >= 10 ==> dec_nat(n).len() >= 2,
        forall|k: int| 0 <= k < dec_nat(n).len() ==> #[trigger] dec_nat(n)[k] != '_',
    decreases n,
{
    if n >= 10 {
        lemma_dec_nat_shape(n / 10);
    }
}

/// Different numbers have different numerals.
pub proof fn lemma_dec_nat_injective(n: nat, m: nat)
    requires
        dec_nat(n) == dec_nat(m),
    ensures
        n == m,
    decreases n,
{
    lemma_dec_nat_shape(n);
    lemma_dec_nat_shape(m);
    if n >= 10 && m >= 10 {
        assert(dec_nat(n).drop_last() == dec_nat(n / 10));
        assert(dec_nat(m).drop_last() == dec_nat(m / 10));
        lemma_dec_nat_injective(n / 10, m / 10);
        assert(dec_nat(n).last() == digit_char(n % 10));
        assert(dec_nat(m).last() == digit_char(m % 10));
    } else if n < 10 && m < 10 {
        assert(dec_nat(n)[0] == digit_char(n));
        assert(dec_nat(m)[0] == digit_char(m));
    }
}

/// The decimal numeral of an integer, with a leading `-` when negative
/// (what `Display` writes for a signed integer).
pub open spec fn dec_int(i: int) -> Seq<char> {
    if i < 0 {
        seq!['-'] + dec_nat((-i) as nat)
    } else {
        dec_nat(i as nat)
    }
}

fn digit_to_char(d: u64) -> (c: char)
    requires
        d < 10,
    ensures
        c == digit_char(d as nat),
{
    if d == 0 {
        '0'
    } else if d == 1 {
        '1'
    } else if d == 2 {
        '2'
    } else if d == 3 {
        '3'
    } else if d == 4 {
        '4'
    } else if d == 5 {
        '5'
    } else if d == 6 {
        '6'
    } else if d == 7 {
        '7'
    } else if d == 8 {
        '8'
    } else {
        '9'
    }
}

/// Appends the decimal numeral of `n`.
pub fn push_u64(s: &mut String, n: u64)
    ensures
        final(s)@ == old(s)@ + dec_nat(n as nat),
    decreases n,
{
    if n >= 10 {
        push_u64(s, n / 10);
        push_char(s, digit_to_char(n % 10));
        assert(dec_nat(n as nat) == dec_nat((n / 10) as nat).push(digit_char((n % 10) as nat)));
    } else {
        push_char(s, digit_to_char(n));
    }
}

/// Appends the decimal numeral of `n`.
pub fn push_usize(s: &mut String, n: usize)
    ensures
        final(s)@ == old(s)@ + dec_nat(n as nat),
{
    push_u64(s, n as u64);
}

/// Appends the decimal numeral of `n`, with `-` before a negative value.
pub fn push_i64(s: &mut String, n: i64)
    ensures
        final(s)@ == old(s)@ + dec_int(n as int),
{
    if n < 0 {
        let m: i128 = -(n as i128);
        push_char(s, '-');
        push_u64(s, m as u64);
        assert(s@ == old(s)@ + (seq!['-'] + dec_nat((-n) as nat)));
    } else {
        push_u64(s, n as u64);
    }
}

/// Appends the decimal numeral of `n`, with `-` before a negative value.
pub fn push_i128(s: &mut String, n: i128)
    requires
        -0x1_0000_0000_0000_0000int < n < 0x1_0000_0000_0000_0000int,
    ensures
        final(s)@ == old(s)@ + dec_int(n as int),
{
    if n < 0 {
        push_char(s, '-');
        push_u64(s, (-n) as u64);
        assert(s@ == old(s)@ + (seq!['-'] + dec_nat((-n) as nat)));
    } else {
        push_u64(s, n as u64);
    }
}

/// Appends a string slice.
pub fn push_str(s: &mut String, t: &str)
    ensures
        final(s)@ == old(s)@ + t@,
{
    s.append(t);
}

} // verus!
