//! The two conversions between `String` and `Vec<char>`. Both contracts are
//! exact: the view of a string is its character sequence.

use vstd::prelude::*;

verus! {

/// Relies on str::chars and Vec's FromIterator: the characters of the
/// string, in order.
#[verifier::external_body]
pub fn chars_of_str(s: &str) -> (r: Vec<char>)
    ensures
        r@ == s@,
{
    s.chars().collect()
}

/// Relies on String's FromIterator over chars: the string holding exactly
/// the given characters, in order.
#[verifier::external_body]
pub fn string_of_chars(v: &Vec<char>) -> (r: String)
    ensures
        r@ == v@,
{
    v.iter().collect()
}

} // verus!
