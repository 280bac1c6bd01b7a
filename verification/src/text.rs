//! Character classes, decimal numerals and string building.
//!
//! The Unicode character classes and the integer parsing and printing of the
//! standard library are reached here through small trusted wrappers; the
//! decimal notation they read and write is stated by the spec functions below.
use vstd::prelude::*;

verus! {

/// What `char::is_whitespace` answers (the Unicode `White_Space` property).
pub uninterp spec fn unicode_whitespace(c: char) -> bool;

/// What `char::is_alphabetic` answers (the Unicode `Alphabetic` property).
pub uninterp spec fn unicode_alphabetic(c: char) -> bool;

/// What `char::is_numeric` answers beyond ASCII (the Unicode `N*` general categories).
pub uninterp spec fn unicode_numeric(c: char) -> bool;

/// `char::is_whitespace`: for ASCII characters a space or `'\t'` to `'\r'`,
/// beyond ASCII the Unicode property.
pub open spec fn char_whitespace(c: char) -> bool {
    if c <= '\x7f' {
        c == ' ' || ('\t' <= c && c <= '\r')
    } else {
        unicode_whitespace(c)
    }
}

/// `char::is_alphabetic`: for ASCII characters the letters, beyond ASCII the
/// Unicode property.
pub open spec fn char_alphabetic(c: char) -> bool {
    if c <= '\x7f' {
        ('a' <= c && c <= 'z') || ('A' <= c && c <= 'Z')
    } else {
        unicode_alphabetic(c)
    }
}

/// `char::is_numeric`: for ASCII characters the digits, beyond ASCII the
/// Unicode property.
pub open spec fn char_numeric(c: char) -> bool {
    if c <= '\x7f' {
        '0' <= c && c <= '9'
    } else {
        unicode_numeric(c)
    }
}

/// `char::is_alphanumeric`, which std defines as alphabetic or numeric.
pub open spec fn char_alphanumeric(c: char) -> bool {
    char_alphabetic(c) || char_numeric(c)
}

/// Calls `char::is_whitespace`; the result is the named property of `c`. Its
/// source answers for ASCII characters directly: a space, or `'\t'` to `'\r'`.
#[verifier::external_body]
pub(crate) fn is_whitespace(c: char) -> (b: bool)
    ensures
        b == unicode_whitespace(c),
        b == char_whitespace(c),
{
    c.is_whitespace()
}

/// Calls `char::is_alphabetic`; the result is the named property of `c`. Its
/// source answers for ASCII characters directly: the letters `a`-`z` and `A`-`Z`.
#[verifier::external_body]
pub(crate) fn is_alphabetic(c: char) -> (b: bool)
    ensures
        b == unicode_alphabetic(c),
        b == char_alphabetic(c),
{
    c.is_alphabetic()
}

/// Calls `char::is_alphanumeric`, which its source defines as `is_alphabetic`
/// or `is_numeric`; each answers for ASCII characters directly and otherwise
/// by its Unicode property.
#[verifier::external_body]
pub(crate) fn is_alphanumeric(c: char) -> (b: bool)
    ensures
        b == (char_alphabetic(c) || char_numeric(c)),
        c > '\x7f' ==> b == (unicode_alphabetic(c) || unicode_numeric(c)),
{
    c.is_alphanumeric()
}

/// An ASCII decimal digit (what `char::is_ascii_digit` answers).
pub open spec fn is_digit(c: char) -> bool {
    '0' <= c && c <= '9'
}

/// The value of one decimal digit.
pub open spec fn digit_value(c: char) -> nat {
    (c as int - '0' as int) as nat
}

/// The digit character for a value below ten.
pub open spec fn digit_char(d: nat) -> char {
    (d + '0' as int) as char
}

/// The number that a sequence of decimal digits denotes (leading zeros allowed).
pub open spec fn decimal_value(s: Seq<char>) -> nat
    decreases s.len(),
{
    if s.len() == 0 {
        0
    } else {
        decimal_value(s.drop_last()) * 10 + digit_value(s.last())
    }
}

/// The shortest decimal numeral of `n`.
pub open spec fn nat_text(n: nat) -> Seq<char>
    decreases n,
{
    if n < 10 {
        seq![digit_char(n)]
    } else {
        nat_text(n / 10).push(digit_char(n % 10))
    }
}

/// Decimal numeral with a leading `-` for negative numbers (`{}` formatting).
pub open spec fn int_text(i: int) -> Seq<char> {
    if i < 0 {
        seq!['-'] + nat_text((-i) as nat)
    } else {
        nat_text(i as nat)
    }
}

/// Decimal numeral that always carries its sign (`{:+}` formatting).
pub open spec fn signed_text(i: int) -> Seq<char> {
    if i < 0 {
        seq!['-'] + nat_text((-i) as nat)
    } else {
        seq!['+'] + nat_text(i as nat)
    }
}

/// Parses a run of ASCII digits with `str::parse::<i32>`: the std documentation
/// gives the decimal value, and an overflow error when it exceeds `i32::MAX`.
#[verifier::external_body]
pub(crate) fn parse_decimal_i32(s: &str) -> (r: Option<i32>)
    requires
        s@.len() > 0,
        forall|i: int| 0 <= i < s@.len() ==> is_digit(#[trigger] s@[i]),
    ensures
        r == (if decimal_value(s@) <= i32::MAX {
            Some(decimal_value(s@) as i32)
        } else {
            None::<i32>
        }),
{
    s.parse::<i32>().ok()
}

/// Appends one character with `String::push`.
#[verifier::external_body]
pub(crate) fn push_char(s: &mut String, c: char)
    ensures
        final(s)@ == old(s)@.push(c),
{
    s.push(c)
}

/// Formats an unsigned number with `format!("{}", ..)`.
#[verifier::external_body]
pub(crate) fn usize_text(n: usize) -> (s: String)
    ensures
        s@ == nat_text(n as nat),
{
    format!("{}", n)
}

/// Formats a signed number with `format!("{}", ..)`.
#[verifier::external_body]
pub(crate) fn i32_text(v: i32) -> (s: String)
    ensures
        s@ == int_text(v as int),
{
    format!("{}", v)
}

/// Formats a signed number with its sign always shown, `format!("{:+1}", ..)`.
#[verifier::external_body]
pub(crate) fn i32_signed_text(v: i32) -> (s: String)
    ensures
        s@ == signed_text(v as int),
{
    format!("{:+1}", v)
}

} // verus!
