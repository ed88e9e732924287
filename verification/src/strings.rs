//! The two operations on strings that the library takes from the standard
//! library on trust, because vstd states nothing about them.

use vstd::prelude::*;
use vstd::string::StringSliceAdditionalSpecFns;
use vstd::utf8::valid_utf8;

verus! {

/// Appends the character `c` to `text`.
///
/// This is `String::push` of the standard library. Its contract here is
/// believed, not proved: afterwards the string holds what it held before,
/// followed by `c`, as the documentation of `push` says.
#[verifier::external_body]
pub(crate) fn push_char(text: &mut String, c: char)
    ensures
        final(text)@ == old(text)@.push(c),
{
    text.push(c);
}

/// The text that `bytes` encode, if they are well-formed UTF-8.
///
/// This is `core::str::from_utf8` of the standard library. Its contract
/// here is believed, not proved: the call succeeds exactly on well-formed
/// UTF-8, and the string slice it returns is made of the very bytes given,
/// as the documentation of `from_utf8` says.
#[verifier::external_body]
pub(crate) fn utf8_text(bytes: &[u8]) -> (text: Option<&str>)
    ensures
        match text {
            Some(decoded) => valid_utf8(bytes@) && decoded.spec_bytes() == bytes@,
            None => !valid_utf8(bytes@),
        },
{
    core::str::from_utf8(bytes).ok()
}

} // verus!
