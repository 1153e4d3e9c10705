//! Character classes, case folding and string building: the few `std`
//! operations on text that the tokenizer relies on.

use vstd::prelude::*;
use vstd::std_specs::iter::IteratorSpec;

verus! {

/// What `char::is_whitespace` answers for a character (Unicode `White_Space`).
pub uninterp spec fn char_is_whitespace(c: char) -> bool;

/// What `char::is_alphabetic` answers for a character (Unicode `Alphabetic`).
pub uninterp spec fn char_is_alphabetic(c: char) -> bool;

/// What `char::is_numeric` answers for a character (general categories `Nd`, `Nl`, `No`).
pub uninterp spec fn char_is_numeric(c: char) -> bool;

/// What `str::to_lowercase` returns for a string.
pub uninterp spec fn lowercase_of(s: Seq<char>) -> Seq<char>;

/// Relies on `char::is_whitespace`: a fixed Unicode property of the character.
pub assume_specification[ char::is_whitespace ](c: char) -> (r: bool)
    ensures
        r == char_is_whitespace(c),
;

/// Relies on `char::is_alphabetic`: a fixed Unicode property of the character.
pub assume_specification[ char::is_alphabetic ](c: char) -> (r: bool)
    ensures
        r == char_is_alphabetic(c),
;

/// Relies on `char::is_numeric`: a fixed Unicode property of the character.
pub assume_specification[ char::is_numeric ](c: char) -> (r: bool)
    ensures
        r == char_is_numeric(c),
;

/// Relies on `char::is_alphanumeric`, documented as "either `is_alphabetic()`
/// or `is_numeric()`".
pub assume_specification[ char::is_alphanumeric ](c: char) -> (r: bool)
    ensures
        r == (char_is_alphabetic(c) || char_is_numeric(c)),
;

/// Relies on `str::to_lowercase`: the result depends on the characters alone.
#[verifier::external_body]
pub(crate) fn lowercase(s: &str) -> (r: String)
    ensures
        r@ == lowercase_of(s@),
{
    s.to_lowercase()
}

/// Relies on `String: FromIterator<char>`: the string holds the characters in order.
#[verifier::external_body]
pub(crate) fn string_of_chars(cs: &[char]) -> (r: String)
    ensures
        r@ == cs@,
{
    cs.iter().collect()
}

/// The characters of `s`, in order.
pub fn chars_of(s: &str) -> (r: Vec<char>)
    ensures
        r@ == s@,
{
    let mut out: Vec<char> = Vec::new();
    broadcast use vstd::string::axiom_spec_iter, vstd::string::next_postcondition;

    let mut it = s.chars();
    loop
        invariant
            it.remaining() == s@.skip(out@.len() as int),
            out@ == s@.take(out@.len() as int),
            out@.len() <= s@.len(),
        ensures
            out@ == s@,
        decreases s@.len() - out@.len(),
    {
        match it.next() {
            Some(c) => out.push(c),
            None => {
                assert(out@ =~= s@);
                break;
            },
        }
    }
    out
}

} // verus!
