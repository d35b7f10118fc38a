//! The checksum that guards the journal and the progress log.
use vstd::prelude::*;


verus! {

/// The BLAKE3 hash of `data`.
pub uninterp spec fn blake3_of(data: Seq<u8>) -> Seq<u8>;

/// Calls `blake3::hash`: the result is the hash of the data, 32 bytes long.
#[verifier::external_body]
pub(crate) fn checksum(data: &[u8]) -> (r: Vec<u8>)
    ensures
        r@ == blake3_of(data@),
        r@.len() == 32,
{
    blake3::hash(data).as_bytes().to_vec()
}

} // verus!
