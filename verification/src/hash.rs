//! The hash primitive: SHA-256.

use vstd::prelude::*;

verus! {

/// Length of a digest in bytes.
pub const HASH_LEN: usize = 32;

/// What `sha2_const::Sha256` returns for a message: the value of
/// `Sha256::new().update(data).finalize()`.
pub uninterp spec fn sha256_digest(data: Seq<u8>) -> Seq<u8>;

/// The 32-byte digest of a message.
pub open spec fn digest_of(data: Seq<u8>) -> Seq<u8> {
    Seq::new(32, |i: int| sha256_digest(data)[i])
}

/// The trusted edge to `sha2_const`: feeds `data` to a fresh `Sha256` with
/// `update` and returns what `finalize` gives, which is the named digest of
/// `data`.
///
/// The outside code counts the message length in bits in a `u64`, so the
/// message must be shorter than `2^61` bytes.
#[verifier::external_body]
fn sha256_raw(data: &[u8]) -> (digest: [u8; 32])
    requires
        data@.len() < 0x2000_0000_0000_0000,
    ensures
        digest@ == sha256_digest(data@),
{
    sha2_const::Sha256::new().update(data).finalize()
}

/// Computes the SHA-256 digest of a message shorter than `2^61` bytes.
pub fn sha256(data: &[u8]) -> (digest: [u8; 32])
    requires
        data@.len() < 0x2000_0000_0000_0000,
    ensures
        digest@ == digest_of(data@),
{
    let digest = sha256_raw(data);
    proof {
        assert(digest@ =~= digest_of(data@));
    }
    digest
}

} // verus!
