//! Reading and building of strings.

use vstd::prelude::*;
use vstd::string::*;

verus! {

/// Whether `name` reads `word`.
pub fn reads(name: &String, word: &str) -> (r: bool)
    ensures
        r == (name@ == word@),
{
    *name == String::from_str(word)
}

/// Appends a character to a string with `String::push` of the standard
/// library. The claim is that the string is then longer by that character.
#[verifier::external_body]
pub(crate) fn push_char(s: &mut String, c: char)
    ensures
        final(s)@ == old(s)@.push(c),
{
    s.push(c);
}

} // verus!
