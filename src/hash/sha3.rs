use vstd::prelude::*;

use crate::hash::Hasher;

verus! {

/// The SHA3-256 digest of the given bytes.
pub uninterp spec fn sha3_256_of(bytes: Seq<u8>) -> Seq<u8>;

/// Relies on sha3::Sha3_256::digest: the 32-byte SHA3-256 digest of the input.
#[verifier::external_body]
fn sha3_256(bytes: &[u8]) -> (r: [u8; 32])
    ensures
        r@ == sha3_256_of(bytes@),
{
    <::sha3::Sha3_256 as ::sha3::Digest>::digest(bytes).into()
}

/// The SHA3-256 hash algorithm.
#[derive(Clone, Copy)]
pub struct Sha3Hasher;

impl Hasher<32> for Sha3Hasher {
    open spec fn spec_hash(&self, bytes: Seq<u8>) -> Seq<u8> {
        sha3_256_of(bytes)
    }

    fn hash(&self, value: &[u8]) -> (r: crate::hash::Hash<32>) {
        crate::hash::Hash(sha3_256(value))
    }
}

} // verus!
