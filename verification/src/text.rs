//! Conversions between strings and character sequences.

use vstd::prelude::*;
use crate::chars::ascii_upper;

verus! {

/// `String::push`: documented to append the character to the end of the string.
pub assume_specification[ String::push ](s: &mut String, c: char)
    ensures
        final(s)@ == old(s)@.push(c),
;

/// `s` with every ASCII lower-case letter replaced by its upper-case form.
pub open spec fn upper(s: Seq<char>) -> Seq<char> {
    Seq::new(s.len(), |i: int| ascii_upper(s[i]))
}

/// The characters of `text`, in order.
pub fn chars_of(text: &str) -> (chars: Vec<char>)
    ensures
        chars@ == text@,
{
    let mut chars: Vec<char> = Vec::new();
    for c in it: text.chars()
        invariant
            chars@ == it.seq().take(it.index() as int),
    {
        chars.push(c);
    }
    chars
}

/// A string made of the given characters.
pub fn string_of(chars: &[char]) -> (s: String)
    ensures
        s@ == chars@,
{
    let mut s = String::new();
    let mut i: usize = 0;
    while i < chars.len()
        invariant
            i <= chars@.len(),
            s@ == chars@.take(i as int),
        decreases chars@.len() - i,
    {
        s.push(chars[i]);
        i += 1;
        assert(chars@.take(i as int) =~= chars@.take(i - 1).push(chars@[i - 1]));
    }
    assert(chars@.take(i as int) =~= chars@);
    s
}

/// A string made of the given characters, ASCII letters in upper case.
pub fn upper_string_of(chars: &[char]) -> (s: String)
    ensures
        s@ == upper(chars@),
{
    let mut s = String::new();
    let mut i: usize = 0;
    while i < chars.len()
        invariant
            i <= chars@.len(),
            s@ == upper(chars@.take(i as int)),
        decreases chars@.len() - i,
    {
        s.push(chars[i].to_ascii_uppercase());
        i += 1;
        assert(upper(chars@.take(i as int)) =~= upper(chars@.take(i - 1)).push(
            ascii_upper(chars@[i - 1]),
        ));
    }
    assert(chars@.take(i as int) =~= chars@);
    s
}

} // verus!
