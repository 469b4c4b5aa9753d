//! SHA-1, as the object identifiers and the index trailer use it.

use crypto::digest::Digest;
use vstd::prelude::*;

verus! {

/// The largest input that the digest accepts: its bit count must fit in 64 bits.
pub const MAX_DIGEST_INPUT: u64 = 0x1fff_ffff_ffff_ffff;

/// Byte `i` of the SHA-1 digest of `data`.
pub uninterp spec fn sha1_byte(data: Seq<u8>, i: int) -> u8;

/// The SHA-1 digest of a byte sequence: twenty bytes.
pub open spec fn sha1_of(data: Seq<u8>) -> Seq<u8> {
    Seq::new(20, |i: int| sha1_byte(data, i))
}

/// The length of a SHA-1 digest in bytes.
pub const DIGEST_LEN: usize = 20;

/// Relies on rust-crypto's `Sha1` (`input`, then `result` into
/// `output_bytes()` bytes): the digest depends on the bytes alone and is
/// 160 bits long.
#[verifier::external_body]
pub(crate) fn sha1_digest(data: &[u8]) -> (r: Vec<u8>)
    requires
        data@.len() <= MAX_DIGEST_INPUT,
    ensures
        r@.len() == DIGEST_LEN,
        forall|i: int| 0 <= i < DIGEST_LEN ==> r@[i] == #[trigger] sha1_byte(data@, i),
{
    let mut hasher = crypto::sha1::Sha1::new();
    hasher.input(data);
    let mut out = vec![0u8; hasher.output_bytes()];
    hasher.result(&mut out);
    out
}

} // verus!
