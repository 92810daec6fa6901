//! Turning the bytes of a field into text.
use vstd::prelude::*;
use vstd::utf8::{decode_utf8, valid_utf8};

verus! {

/// The text that `String::from_utf8_lossy` makes of `b`.
pub uninterp spec fn text_of(b: Seq<u8>) -> Seq<char>;

/// `s` is the text of the bytes `b`: exactly their characters where `b` is
/// well-formed UTF-8.
pub open spec fn is_text_of(s: Seq<char>, b: Seq<u8>) -> bool {
    &&& s == text_of(b)
    &&& valid_utf8(b) ==> s == decode_utf8(b)
}

/// Relies on `String::from_utf8_lossy`: well-formed UTF-8 is decoded as it
/// stands, and each ill-formed sequence becomes U+FFFD.
#[verifier::external_body]
pub(crate) fn decode_lossy(b: &[u8]) -> (r: String)
    ensures
        r@ == text_of(b@),
        valid_utf8(b@) ==> r@ == decode_utf8(b@),
{
    String::from_utf8_lossy(b).into_owned()
}

} // verus!
