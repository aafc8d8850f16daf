//! Characters and strings: the few standard-library calls that keys need.

use vstd::prelude::*;

verus! {

/// The character after `c` in code-point order, if that code point is a
/// Unicode scalar value.
pub open spec fn next_char(c: char) -> Option<char> {
    let u = c as int + 1;
    if u <= 0x10FFFF && !(0xD800 <= u <= 0xDFFF) {
        Some(u as char)
    } else {
        None
    }
}

/// Calls `char::from_u32`, which the standard library documents to return
/// `Some` exactly for the Unicode scalar values (at most 0x10FFFF and outside
/// the surrogates 0xD800..=0xDFFF), holding the character with that code.
#[verifier::external_body]
pub fn char_from_u32(u: u32) -> (r: Option<char>)
    ensures
        r == (if u <= 0x10FFFF && !(0xD800 <= u <= 0xDFFF) { Some(u as char) } else { None }),
{
    char::from_u32(u)
}

/// Calls `String::push`: the character is appended at the end.
#[verifier::external_body]
pub fn push_char(s: &mut String, c: char)
    ensures
        final(s)@ == old(s)@.push(c),
{
    s.push(c)
}

/// Calls `String::pop`: the last character is removed and returned; an empty
/// string stays empty and gives `None`.
#[verifier::external_body]
pub fn pop_char(s: &mut String) -> (r: Option<char>)
    ensures
        old(s)@.len() == 0 ==> r is None && final(s)@ == old(s)@,
        old(s)@.len() > 0 ==> r == Some(old(s)@.last()) && final(s)@ == old(s)@.drop_last(),
{
    s.pop()
}

/// The character after `c`, if there is one.
pub fn successor(c: char) -> (r: Option<char>)
    ensures
        r == next_char(c),
{
    let u = c as u32;
    if u == u32::MAX {
        return None;
    }
    char_from_u32(u + 1)
}

/// The decimal digits of `n`, most significant first, with no leading zero.
pub open spec fn decimal(n: nat) -> Seq<char>
    decreases n,
{
    if n < 10 {
        seq![(n + 48) as char]
    } else {
        decimal(n / 10).push(((n % 10) + 48) as char)
    }
}

/// The decimal digit `d`.
fn digit(d: u64) -> (c: char)
    requires
        d < 10,
    ensures
        c == ((d + 48) as char),
{
    match d {
        0 => '0',
        1 => '1',
        2 => '2',
        3 => '3',
        4 => '4',
        5 => '5',
        6 => '6',
        7 => '7',
        8 => '8',
        _ => '9',
    }
}

/// `n` written in decimal digits, with no sign and no leading zero.
pub fn decimal_string(n: u64) -> (s: String)
    ensures
        s@ == decimal(n as nat),
    decreases n,
{
    if n < 10 {
        let mut s = String::new();
        push_char(&mut s, digit(n));
        assert(s@ =~= seq![(n + 48) as char]);
        s
    } else {
        let mut s = decimal_string(n / 10);
        push_char(&mut s, digit(n % 10));
        s
    }
}

} // verus!
