//! The content digest: SHA-256 over canonical object bytes.

use vstd::prelude::*;
use crate::checksum::Checksum;

verus! {

/// The SHA-256 digest of a byte sequence. The digest is a function of the
/// input bytes alone; its 32-byte value is not otherwise specified here.
pub uninterp spec fn digest_of(b: Seq<u8>) -> Seq<u8>;

/// Relies on `sha2::Sha256` through `digest::Digest::digest`: the output is
/// always 32 bytes and depends on the input bytes alone.
#[verifier::external_body]
fn sha256_digest(b: &[u8]) -> (r: [u8; 32])
    ensures
        r@ == digest_of(b@),
{
    let out = <sha2::Sha256 as sha2::Digest>::digest(b);
    let mut r = [0u8; 32];
    r.copy_from_slice(out.as_slice());
    r
}

/// The checksum a byte sequence is stored under: its SHA-256 digest.
pub fn checksum_bytes(content: &Vec<u8>) -> (r: Checksum)
    ensures
        r@ == digest_of(content@),
{
    Checksum::from_bytes(sha256_digest(content.as_slice()))
}

} // verus!
