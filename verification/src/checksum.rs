//! Checksums and digests.

use sha2::{Digest, Sha256};
use vstd::prelude::*;

verus! {

/// The CRC-32 checksum of a byte string.
pub uninterp spec fn crc32(buf: Seq<u8>) -> u32;

/// Calls `crc32fast::hash`, which computes the CRC-32 checksum of a byte
/// string. The result depends on the bytes alone; nothing more is claimed of it.
#[verifier::external_body]
pub(crate) fn crc32_of(buf: &[u8]) -> (c: u32)
    ensures
        c == crc32(buf@),
{
    crc32fast::hash(buf)
}

/// The SHA-256 digest of a byte string.
pub uninterp spec fn sha256(data: Seq<u8>) -> Seq<u8>;

/// Calls `sha2::Sha256::digest`, which computes the SHA-256 digest of a byte
/// string. The result depends on the bytes alone and is thirty-two bytes long;
/// nothing more is claimed of it.
#[verifier::external_body]
pub(crate) fn sha256_of(data: &[u8]) -> (d: Vec<u8>)
    ensures
        d@ == sha256(data@),
        d@.len() == 32,
{
    Sha256::digest(data).to_vec()
}

} // verus!
