//! The content hash that identifies a torrent.

use vstd::prelude::*;

verus! {

/// SHA-1 takes messages of fewer than 2^64 bits, that is fewer than this
/// many bytes.
pub const MESSAGE_LIMIT: u64 = 0x2000_0000_0000_0000;

/// The SHA-1 digest of `data`: twenty bytes that depend on `data` and on
/// nothing else.
pub uninterp spec fn sha1_digest(data: Seq<u8>) -> Seq<u8>;

/// Hashes `data` with `sha1_smol`: `Sha1::from` takes the bytes in,
/// `Sha1::digest` pads and finishes, `Digest::bytes` writes the five state
/// words out, most significant byte first. The result is taken to be the
/// SHA-1 digest of `data`. The length in bits is computed in 64 bits there,
/// which is why `data` must stay under the limit.
#[verifier::external_body]
pub(crate) fn sha1(data: &[u8]) -> (r: [u8; 20])
    requires
        data@.len() < MESSAGE_LIMIT,
    ensures
        r@ == sha1_digest(data@),
{
    sha1_smol::Sha1::from(data).digest().bytes()
}

} // verus!
