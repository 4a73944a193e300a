//! Names as text.
use vstd::prelude::*;

verus! {

/// What `String::from_utf8_lossy` makes of bytes.
pub uninterp spec fn lossy(b: Seq<u8>) -> Seq<u8>;

/// Bytes as text, as `String::from_utf8_lossy` gives them: text stays as it
/// is, and what is no text comes back with replacement characters in the
/// places that are wrong. Which places these are is left to that function: it
/// depends on the bytes alone.
#[verifier::external_body]
fn from_utf8_lossy(b: &[u8]) -> (r: Vec<u8>)
    ensures
        r@ == lossy(b@),
        vstd::utf8::valid_utf8(b@) ==> r@ == b@,
        vstd::utf8::valid_utf8(r@),
{
    String::from_utf8_lossy(b).into_owned().into_bytes()
}

/// A name as it is shown.
pub open spec fn shown(b: Seq<u8>) -> Seq<u8> {
    if vstd::utf8::valid_utf8(b) {
        b
    } else {
        lossy(b)
    }
}

/// A name as it is shown: as it stands where it is text.
pub fn show(b: &[u8]) -> (r: Vec<u8>)
    ensures
        r@ == shown(b@),
        vstd::utf8::valid_utf8(r@),
{
    from_utf8_lossy(b)
}

} // verus!
