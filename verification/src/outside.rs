//! Trusted declarations around the few outside calls the library makes on
//! plain values: identifier generation and UTF-8 decoding, plus one `std`
//! string operation that vstd leaves unspecified.

use vstd::prelude::*;
use vstd::utf8::{encode_utf8, is_ascii_chars, valid_utf8};

verus! {

/// Relies on `uuid::Uuid::new_v4` and `Uuid`'s `Display`: a fresh random
/// version-4 identifier rendered in the 36-character hyphenated form of
/// lower-case hexadecimal digits and hyphens — all ASCII, none of them a
/// dot, a separator or NUL.  The value is random, so nothing relates two
/// calls; only the shape is stated.
#[verifier::external_body]
pub(crate) fn fresh_id() -> (r: String)
    ensures
        r@.len() == 36,
        is_ascii_chars(r@),
        forall|i: int| 0 <= i < r@.len() ==> r@[i] != '.' && r@[i] != '/' && r@[i] != 0 as char,
{
    uuid::Uuid::new_v4().to_string()
}

/// Relies on `String::from_utf8`: it succeeds exactly on byte sequences that
/// are valid UTF-8, and the string it returns holds those very bytes.
#[verifier::external_body]
pub(crate) fn string_from_utf8(bytes: Vec<u8>) -> (r: Option<String>)
    ensures
        r matches Some(s) ==> encode_utf8(s@) == bytes@,
        valid_utf8(bytes@) ==> r is Some,
{
    String::from_utf8(bytes).ok()
}

/// Relies on `String::push`: appends one character at the end.
#[verifier::external_body]
pub(crate) fn string_push(s: &mut String, c: char)
    ensures
        final(s)@ == old(s)@.push(c),
{
    s.push(c);
}

} // verus!
