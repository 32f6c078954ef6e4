//! MD5 checksums.

use vstd::prelude::*;

verus! {

/// The MD5 checksum of `data`: sixteen bytes.
pub uninterp spec fn md5_digest(data: Seq<u8>) -> Seq<u8>;

/// Computes the MD5 checksum of `data` with `md5::compute`, which hashes the
/// whole input and returns the sixteen bytes of the digest. Nothing is
/// proved of the hash function itself: the contract only gives its result
/// a name.
#[verifier::external_body]
fn md5_compute(data: &[u8]) -> (digest: [u8; 16])
    ensures
        digest@ == md5_digest(data@),
{
    md5::compute(data).0
}

/// The MD5 checksum of `data` as the sections of an archive hold it.
pub open spec fn md5_of(data: Seq<u8>) -> Seq<u8> {
    if md5_digest(data).len() == 16 {
        md5_digest(data)
    } else {
        Seq::new(16, |i: int| 0u8)
    }
}

/// Computes the MD5 checksum of `data`.
pub fn checksum(data: &[u8]) -> (digest: [u8; 16])
    ensures
        digest@ == md5_of(data@),
{
    md5_compute(data)
}

} // verus!
