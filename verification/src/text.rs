//! Turning decoded bytes into text, with lossy substitution for byte
//! sequences that are not valid UTF-8.

use vstd::prelude::*;

verus! {

/// The text that lossy UTF-8 decoding yields for the bytes `b`. The result
/// is a function of the bytes alone.
pub uninterp spec fn lossy_of(b: Seq<u8>) -> Seq<char>;

/// Relies on String::from_utf8_lossy: decodes the bytes as UTF-8, replacing
/// invalid sequences rather than failing; the result depends on the bytes
/// alone.
#[verifier::external_body]
pub(crate) fn lossy_string(b: &Vec<u8>) -> (r: String)
    ensures
        r@ == lossy_of(b@),
{
    String::from_utf8_lossy(b.as_slice()).to_string()
}

} // verus!
