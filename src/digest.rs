//! Content addressing of notes.

use vstd::prelude::*;

verus! {

/// The SHA-256 digest of a byte string.
pub uninterp spec fn sha256_of(b: Seq<u8>) -> Seq<u8>;

/// Relies on sha2's `Sha256::digest`: the SHA-256 digest of the bytes, which
/// depends on them alone and is 32 bytes long.
#[verifier::external_body]
pub(crate) fn sha256(content: &Vec<u8>) -> (r: Vec<u8>)
    ensures
        r@ == sha256_of(content@),
        r@.len() == 32,
{
    <sha2::Sha256 as sha2::Digest>::digest(content.as_slice()).to_vec()
}

} // verus!
