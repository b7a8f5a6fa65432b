//! The hash function of the ring: BLAKE2s, cut to its first eight bytes.

use blake2::Blake2s;
use blake2::Digest;
use vstd::prelude::*;

verus! {

/// The unkeyed BLAKE2s digest of `data`, as the `blake2` crate computes it.
/// Nothing is said of its bytes here.
pub uninterp spec fn blake2s_digest(data: Seq<u8>) -> Seq<u8>;

/// Computes the BLAKE2s digest of `data` by `Digest::digest` of the `blake2`
/// crate, called on `Blake2s`: it feeds `data` to a fresh unkeyed hasher and
/// finalises it. This is not verified. What is taken on trust is that the
/// digest is a function of the bytes of `data` and of nothing else; that it
/// has 32 bytes is in the type that the crate returns.
#[verifier::external_body]
pub(crate) fn blake2s(data: &[u8]) -> (out: [u8; 32])
    ensures
        out@ == blake2s_digest(data@),
{
    Blake2s::digest(data).into()
}

/// The big-endian value of the first eight bytes of `bytes`.
pub open spec fn be_u64(bytes: Seq<u8>) -> u64
    recommends
        bytes.len() >= 8,
{
    (bytes[0] as u64 * 0x0100_0000_0000_0000 + bytes[1] as u64 * 0x0001_0000_0000_0000
        + bytes[2] as u64 * 0x0000_0100_0000_0000 + bytes[3] as u64 * 0x0000_0001_0000_0000
        + bytes[4] as u64 * 0x0000_0000_0100_0000 + bytes[5] as u64 * 0x0000_0000_0001_0000
        + bytes[6] as u64 * 0x0000_0000_0000_0100 + bytes[7] as u64) as u64
}

/// The ring position of a byte string.
pub open spec fn hash_of(data: Seq<u8>) -> u64 {
    be_u64(blake2s_digest(data))
}

/// Packs the first eight bytes of a digest, most significant first.
pub fn digest_prefix(digest: &[u8; 32]) -> (h: u64)
    ensures
        h == be_u64(digest@),
{
    let b0: u64 = digest[0] as u64;
    let b1: u64 = digest[1] as u64;
    let b2: u64 = digest[2] as u64;
    let b3: u64 = digest[3] as u64;
    let b4: u64 = digest[4] as u64;
    let b5: u64 = digest[5] as u64;
    let b6: u64 = digest[6] as u64;
    let b7: u64 = digest[7] as u64;
    assert((b0 << 56) == b0 * 0x0100_0000_0000_0000 && (b1 << 48) == b1 * 0x0001_0000_0000_0000
        && (b2 << 40) == b2 * 0x0000_0100_0000_0000 && (b3 << 32) == b3 * 0x0000_0001_0000_0000
        && (b4 << 24) == b4 * 0x0000_0000_0100_0000 && (b5 << 16) == b5 * 0x0000_0000_0001_0000
        && (b6 << 8) == b6 * 0x0000_0000_0000_0100 && (b7 << 0) == b7) by (bit_vector)
        requires
            b0 < 256,
            b1 < 256,
            b2 < 256,
            b3 < 256,
            b4 < 256,
            b5 < 256,
            b6 < 256,
            b7 < 256,
    ;
    (b0 << 56) + (b1 << 48) + (b2 << 40) + (b3 << 32) + (b4 << 24) + (b5 << 16) + (b6 << 8) + (b7
        << 0)
}

} // verus!
