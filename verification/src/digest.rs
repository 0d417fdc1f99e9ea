//! SHA-256, as the `sha2` crate computes it.

use sha2::{Digest, Sha256};
use vstd::prelude::*;

verus! {

/// What SHA-256 returns for a byte sequence.
pub uninterp spec fn sha256(data: Seq<u8>) -> Seq<u8>;

/// The SHA-256 digest of `data`, by `sha2::Sha256::digest`, as a vector. The
/// digest is named, not stated; that it has 32 bytes is the output size the
/// crate gives `Sha256`.
#[verifier::external_body]
pub(crate) fn sha256_digest(data: &[u8]) -> (r: Vec<u8>)
    ensures
        r@ == sha256(data@),
        r@.len() == 32,
{
    Sha256::digest(data).to_vec()
}

} // verus!
