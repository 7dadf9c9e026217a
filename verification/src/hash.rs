//! The hash function of the all-or-nothing transform: SHA3-256, computed by
//! the `sha3` crate. Its result has a name, [`sha3_256`], and nothing more is
//! said of it: the transform is correct for every hash function.

use vstd::prelude::*;
use sha3::{Digest, Sha3_256};

verus! {

/// Number of bytes in a SHA3-256 digest.
pub const DIGEST_SIZE: usize = 32;

/// The SHA3-256 digest of a byte string.
pub uninterp spec fn sha3_256(data: Seq<u8>) -> Seq<u8>;

/// `sha3::Digest::digest` for `Sha3_256`: the digest of `data`, a function
/// of the bytes of `data` alone.
#[verifier::external_body]
pub(crate) fn sha3_256_digest(data: &[u8]) -> (digest: [u8; DIGEST_SIZE])
    ensures
        digest@ == sha3_256(data@),
{
    Sha3_256::digest(data).into()
}

} // verus!
