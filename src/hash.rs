//! Keccak-256 content hash.
use crypto::digest::Digest;
use vstd::prelude::*;

verus! {

/// The Keccak-256 digest of `data`.
pub uninterp spec fn keccak_of(data: Seq<u8>) -> [u8; 32];

/// Relies on rust-crypto's `Sha3::keccak256` with `Digest::input` and
/// `Digest::result`: the 32-byte Keccak-256 digest, which depends on the input
/// alone.
#[verifier::external_body]
pub(crate) fn keccak256(data: &[u8]) -> (r: [u8; 32])
    ensures
        r == keccak_of(data@),
{
    let mut hasher = crypto::sha3::Sha3::keccak256();
    hasher.input(data);
    let mut out = [0u8; 32];
    hasher.result(&mut out);
    out
}

} // verus!
