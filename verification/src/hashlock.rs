//! Hash-lock verifier.
//!
//! A hash-locked swap stores a commitment fixed at start time; release of
//! the escrowed value requires presenting a secret whose one-way digest
//! equals that commitment.

use blake2::Digest;
use vstd::prelude::*;

verus! {

/// The one-way digest of a byte string; a function of the bytes alone.
pub uninterp spec fn digest_of(s: Seq<u8>) -> Seq<u8>;

/// Relies on `blake2::Blake2b256` (BLAKE2b with 32-byte output): the
/// digest is a function of the input bytes alone and is 32 bytes long.
#[verifier::external_body]
pub(crate) fn hash_secret(secret: &Vec<u8>) -> (r: Vec<u8>)
    ensures
        r@ == digest_of(secret@),
        r@.len() == 32,
{
    blake2::Blake2b256::digest(secret.as_slice()).to_vec()
}

} // verus!
