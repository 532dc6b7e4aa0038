//! Characters, strings and shared strings.
use std::sync::Arc;
use vstd::prelude::*;

verus! {

/// Compares two strings by their characters, with `==` of `str` in std.
/// Trusted: std documents string equality as equality of contents.
#[verifier::external_body]
pub(crate) fn str_eq(a: &str, b: &str) -> (r: bool)
    ensures
        r == (a@ == b@),
{
    a == b
}

/// Clones a shared string with `Arc::clone` of std.
/// Trusted: std documents that the clone points to the same allocation, so it
/// holds the same characters.
#[verifier::external_body]
pub(crate) fn arc_clone(a: &Arc<String>) -> (r: Arc<String>)
    ensures
        r@ == a@,
{
    a.clone()
}

/// Appends one character with `String::push` of std.
/// Trusted: std documents that `push` appends the character to the end.
#[verifier::external_body]
pub(crate) fn push_char(s: &mut String, c: char)
    ensures
        final(s)@ == old(s)@.push(c),
{
    s.push(c)
}

/// Collects the characters of a text.
pub fn chars_of(text: &str) -> (r: Vec<char>)
    ensures
        r@ == text@,
{
    let mut r: Vec<char> = Vec::new();
    for c in it: text.chars()
        invariant
            r@ == it.seq().take(it.index() as int),
    {
        r.push(c);
    }
    r
}

/// The characters that stand for `c` inside a JSON string.
pub open spec fn escape_char(c: char) -> Seq<char> {
    if c == '\\' {
        seq!['\\', '\\']
    } else if c == '"' {
        seq!['\\', '"']
    } else if c == '\n' {
        seq!['\\', 'n']
    } else if c == '\r' {
        seq!['\\', 'r']
    } else if c == '\t' {
        seq!['\\', 't']
    } else {
        seq![c]
    }
}

/// The characters that stand for `s` inside a JSON string.
pub open spec fn escape(s: Seq<char>) -> Seq<char>
    decreases s.len(),
{
    if s.len() == 0 {
        Seq::empty()
    } else {
        escape_char(s[0]) + escape(s.drop_first())
    }
}

/// `s` written as a JSON string: quoted, with backslash, quote, newline,
/// carriage return and tab escaped.
pub open spec fn json_string(s: Seq<char>) -> Seq<char> {
    seq!['"'] + escape(s) + seq!['"']
}

/// Appends `val` as a JSON string, written by `piston_meta::json::write_string`.
/// Trusted: that function writes a quote, then each character of `val`, with
/// `\\`, `"`, newline, carriage return and tab written as `\\\\`, `\\"`,
/// `\\n`, `\\r` and `\\t`, then a quote; writing into a `Vec<u8>` does not fail
/// and gives valid UTF-8.
#[verifier::external_body]
pub(crate) fn write_json_string(out: &mut String, val: &str)
    ensures
        final(out)@ == old(out)@ + json_string(val@),
{
    let mut buf: Vec<u8> = Vec::new();
    piston_meta::json::write_string(&mut buf, val).unwrap();
    out.push_str(std::str::from_utf8(&buf).unwrap());
}

/// The character of the digit `d`, for `d` below ten.
pub open spec fn digit(d: int) -> char {
    if d == 0 {
        '0'
    } else if d == 1 {
        '1'
    } else if d == 2 {
        '2'
    } else if d == 3 {
        '3'
    } else if d == 4 {
        '4'
    } else if d == 5 {
        '5'
    } else if d == 6 {
        '6'
    } else if d == 7 {
        '7'
    } else if d == 8 {
        '8'
    } else {
        '9'
    }
}

/// The decimal digits of `n`.
pub open spec fn decimal(n: nat) -> Seq<char>
    decreases n,
{
    if n < 10 {
        seq![digit(n as int)]
    } else {
        decimal(n / 10).push(digit((n % 10) as int))
    }
}

/// The character of a digit.
fn digit_char(d: usize) -> (c: char)
    requires
        d < 10,
    ensures
        c == digit(d as int),
{
    if d == 0 {
        '0'
    } else if d == 1 {
        '1'
    } else if d == 2 {
        '2'
    } else if d == 3 {
        '3'
    } else if d == 4 {
        '4'
    } else if d == 5 {
        '5'
    } else if d == 6 {
        '6'
    } else if d == 7 {
        '7'
    } else if d == 8 {
        '8'
    } else {
        '9'
    }
}

/// Appends the decimal digits of `n`.
pub(crate) fn push_decimal(out: &mut String, n: usize)
    ensures
        final(out)@ == old(out)@ + decimal(n as nat),
    decreases n,
{
    if n >= 10 {
        push_decimal(out, n / 10);
    }
    let ghost before = out@;
    push_char(out, digit_char(n % 10));
    proof {
        if n >= 10 {
            assert(before == old(out)@ + decimal((n / 10) as nat));
            assert(out@ =~= old(out)@ + decimal((n / 10) as nat).push(digit((n % 10) as int)));
        } else {
            assert(out@ =~= old(out)@ + decimal(n as nat));
        }
    }
}

} // verus!
