//! The one-way hash that turns record keys into slot keys.
use vstd::prelude::*;

verus! {

/// The Keccak-256 digest of `input`.
pub uninterp spec fn keccak256(input: Seq<u8>) -> [u8; 32];

/// Computes the Keccak-256 digest of `input` with `tiny_keccak::keccak256`.
///
/// Nothing is proved of this function. Its contract claims only that the
/// digest is a function of the input bytes, which it names `keccak256`.
#[verifier::external_body]
pub(crate) fn keccak(input: &[u8]) -> (digest: [u8; 32])
    ensures
        digest == keccak256(input@),
{
    tiny_keccak::keccak256(input)
}

} // verus!
