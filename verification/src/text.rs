//! Passage between strings and the character vectors that the rest of the
//! crate works on.

use vstd::prelude::*;

verus! {

/// Returns the characters of `s` in order.
pub fn chars_of(s: &str) -> (chars: Vec<char>)
    ensures
        chars@ == s@,
{
    let mut chars: Vec<char> = Vec::new();
    for c in it: s.chars()
        invariant
            it.seq() == s@,
            chars@ == it.seq().take(it.index() as int),
    {
        chars.push(c);
    }
    chars
}

/// Collects characters into a `String`.
///
/// Trusted: the body calls `String::from_iter` of the standard library, which
/// builds the string that consists of the characters the iterator yields, in
/// the order in which it yields them. A vector yields its elements front to
/// back, so the string reads as `chars` does.
#[verifier::external_body]
pub(crate) fn string_of(chars: Vec<char>) -> (s: String)
    ensures
        s@ == chars@,
{
    String::from_iter(chars)
}

} // verus!
