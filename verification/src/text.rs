//! Turning raw name bytes into owned strings for the result records.

use vstd::prelude::*;

verus! {

/// Every byte is ASCII.
pub open spec fn ascii_seq(bytes: Seq<u8>) -> bool {
    forall|i: int| 0 <= i < bytes.len() ==> (#[trigger] bytes[i]) < 128
}

/// The characters that the lossy UTF-8 decoding of some bytes yields.  The
/// decoding is a function of the bytes alone.
pub uninterp spec fn lossy_decode(bytes: Seq<u8>) -> Seq<char>;

/// Relies on String::from_utf8_lossy: the result depends on the bytes alone,
/// valid UTF-8 passes through unchanged, and so ASCII bytes decode to their
/// own characters.
#[verifier::external_body]
pub fn bytes_to_string(bytes: &[u8]) -> (r: String)
    ensures
        r@ == lossy_decode(bytes@),
        ascii_seq(bytes@) ==> r@ == bytes@.map(|i: int, b: u8| b as char),
{
    String::from_utf8_lossy(bytes).into_owned()
}

} // verus!
