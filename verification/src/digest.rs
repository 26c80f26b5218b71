//! SHA-1 digests, by which torrents and their pieces are identified.
use vstd::prelude::*;
use sha1::{Digest, Sha1};

verus! {

/// The SHA-1 digest of a byte string.
pub uninterp spec fn sha1_of(data: Seq<u8>) -> Seq<u8>;

/// The longest input whose length in bits the digest can count.
pub const MAX_DIGEST_INPUT: u64 = 0x1fff_ffff_ffff_ffff;

/// `sha1::Sha1::digest`: the 20 bytes of the SHA-1 digest of `data`, which
/// depend on `data` alone. What the digest is on given bytes is not stated.
#[verifier::external_body]
pub(crate) fn sha1_digest(data: &[u8]) -> (r: [u8; 20])
    requires
        data@.len() <= MAX_DIGEST_INPUT,
    ensures
        r@ == sha1_of(data@),
{
    Sha1::digest(data).into()
}

/// Whether `data` has the digest `expected`.
pub fn digest_matches(data: &[u8], expected: &[u8; 20]) -> (r: bool)
    requires
        data@.len() <= MAX_DIGEST_INPUT,
    ensures
        r == (sha1_of(data@) == expected@),
{
    let got: [u8; 20] = sha1_digest(data);
    crate::strings::bytes_eq(got.as_slice(), expected.as_slice())
}


} // verus!
