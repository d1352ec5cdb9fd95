//! The content address of a block: its 32-byte BLAKE3 digest.

use vstd::prelude::*;

verus! {

/// Bytes of a digest.
pub const DIGEST_LEN: usize = 32;

/// The BLAKE3 digest of `data`.
pub uninterp spec fn blake3_hash(data: Seq<u8>) -> Seq<u8>;

/// Calls `blake3::hash` on `data` and gives the 32 bytes of the result.
#[verifier::external_body]
fn hash(data: &[u8]) -> (r: Vec<u8>)
    ensures
        r@ == blake3_hash(data@),
        r@.len() == 32,
{
    blake3::hash(data).as_bytes().to_vec()
}

/// The digest that a block of `data` is found by.
pub fn block_digest(data: &[u8]) -> (r: Vec<u8>)
    ensures
        r@ == blake3_hash(data@),
        r@.len() == 32,
{
    hash(data)
}

} // verus!
