//! The hash primitive, treated as an opaque external collaborator: leaves are
//! hashed from raw page bytes, internal nodes from the concatenation of their
//! two children's hashes.

use crate::types::ProofHash;
use tiny_keccak::Hasher;
use tiny_keccak::Keccak;
use vstd::prelude::*;

verus! {

/// The Keccak-256 digest of a byte sequence. The digest is opaque: nothing is
/// assumed of it beyond what the trusted wrapper below states.
pub uninterp spec fn keccak256(data: Seq<u8>) -> Seq<u8>;

/// Digest of the concatenation of two child hashes, lower-address child first.
pub open spec fn spec_merge(left: Seq<u8>, right: Seq<u8>) -> Seq<u8> {
    keccak256(left + right)
}

/// Relies on tiny_keccak's `Keccak::v256`, `Hasher::update` and
/// `Hasher::finalize`: the Keccak-256 digest of the input bytes, a pure
/// function of those bytes alone, written into a 32-byte output.
#[verifier::external_body]
pub(crate) fn keccak256_bytes(data: &[u8]) -> (r: ProofHash)
    ensures
        r@ == keccak256(data@),
{
    let mut hasher = Keccak::v256();
    let mut output = [0u8; 32];
    hasher.update(data);
    hasher.finalize(&mut output);
    output
}

} // verus!
