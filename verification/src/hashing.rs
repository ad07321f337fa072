//! SHA-256 digests for chunk verification and path-derived keys.

use sha2::Digest;
use vstd::prelude::*;

verus! {

/// The SHA-256 digest of a byte sequence. The digest is a pure function of
/// the bytes; its 32-byte value is not spelled out here, only named.
pub uninterp spec fn sha256_of(data: Seq<u8>) -> Seq<u8>;

/// Relies on sha2's `Sha256`: the digest depends on the input bytes alone
/// and is exactly 32 bytes long.
#[verifier::external_body]
pub fn sha256_digest(data: &[u8]) -> (r: Vec<u8>)
    ensures
        r@ == sha256_of(data@),
        r@.len() == 32,
{
    let mut hasher = sha2::Sha256::new();
    hasher.update(data);
    hasher.finalize().to_vec()
}

} // verus!
