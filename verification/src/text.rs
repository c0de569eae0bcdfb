//! Decoding bytes as UTF-8 text.

use vstd::prelude::*;
use vstd::utf8::{encode_utf8, valid_utf8};

verus! {

/// Turns `bytes` into a string with `String::from_utf8` of the standard library.
///
/// Not proved: that the call succeeds exactly when the bytes are valid UTF-8,
/// and that the string it then returns is made of those very bytes.
#[verifier::external_body]
pub(crate) fn string_from_utf8(bytes: Vec<u8>) -> (text: Option<String>)
    ensures
        text is Some <==> valid_utf8(bytes@),
        text matches Some(s) ==> encode_utf8(s@) == bytes@,
{
    String::from_utf8(bytes).ok()
}

} // verus!
