//! Characters and strings: the few facts about `char`, `str` and `String`
//! that the rest of the crate builds on.

use vstd::prelude::*;
use vstd::string::StrSliceExecFns;

verus! {

/// A character that UTF-8 writes as one byte.
pub open spec fn is_single_byte(c: char) -> bool {
    (c as u32) < 0x80
}

/// Every character of `s` takes one byte.
pub open spec fn all_single_byte(s: Seq<char>) -> bool {
    forall|i: int| 0 <= i < s.len() ==> is_single_byte(#[trigger] s[i])
}

/// The ASCII lower-case form of a character; anything but `A`..`Z` is unchanged.
pub open spec fn ascii_lower(c: char) -> char {
    if 0x41 <= (c as u32) <= 0x5a {
        ((c as u32 + 0x20) as u8) as char
    } else {
        c
    }
}

/// `ascii_lower` applied to each character.
pub open spec fn ascii_lower_seq(s: Seq<char>) -> Seq<char> {
    Seq::new(s.len(), |i: int| ascii_lower(s[i]))
}

/// One of `0`..`9`.
pub open spec fn is_ascii_digit(c: char) -> bool {
    0x30 <= (c as u32) <= 0x39
}

/// The lower-case form of a string as the standard library computes it.
/// Lower-casing follows the Unicode tables and may change a string's length,
/// so it is named here rather than written out.
pub uninterp spec fn lowercase_of(s: Seq<char>) -> Seq<char>;

/// `str::to_lowercase` of the standard library: the result depends on the
/// characters of the input alone, and is what `lowercase_of` names. Nothing
/// else is claimed of it.
pub assume_specification[ str::to_lowercase ](s: &str) -> (r: String)
    ensures
        r@ == lowercase_of(s@),
;

/// `String::push` of the standard library appends the character to the end.
pub assume_specification[ String::push ](s: &mut String, c: char)
    ensures
        final(s)@ == old(s)@.push(c),
;

/// Whether UTF-8 writes the character as one byte.
pub fn single_byte(c: char) -> (r: bool)
    ensures
        r == is_single_byte(c),
{
    (c as u32) < 0x80
}

/// The ASCII lower-case form of the character.
pub fn to_ascii_lower(c: char) -> (r: char)
    ensures
        r == ascii_lower(c),
{
    let code: u32 = c as u32;
    if 0x41 <= code && code <= 0x5a {
        ((code + 0x20) as u8) as char
    } else {
        c
    }
}

/// Whether the character is one of `0`..`9`.
pub fn ascii_digit(c: char) -> (r: bool)
    ensures
        r == is_ascii_digit(c),
{
    let code: u32 = c as u32;
    0x30 <= code && code <= 0x39
}

/// The characters of a string, in order.
pub fn chars_of(s: &str) -> (v: Vec<char>)
    ensures
        v@ == s@,
{
    let n: usize = s.unicode_len();
    let mut v: Vec<char> = Vec::new();
    let mut i: usize = 0;
    while i < n
        invariant
            n == s@.len(),
            i <= n,
            v@ == s@.take(i as int),
        decreases n - i,
    {
        v.push(s.get_char(i));
        i += 1;
    }
    v
}

/// The string made of the given characters, in order.
pub fn string_of(chars: &[char]) -> (s: String)
    ensures
        s@ == chars@,
{
    let mut s: String = String::new();
    let mut i: usize = 0;
    while i < chars.len()
        invariant
            i <= chars@.len(),
            s@ == chars@.take(i as int),
        decreases chars@.len() - i,
    {
        s.push(chars[i]);
        i += 1;
    }
    s
}

} // verus!
