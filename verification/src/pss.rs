//! The EMSA-PSS encoding of a message digest for a 4096-bit modulus.
//!
//! With `H = Hash(00 00 00 00 00 00 00 00 ‖ mHash ‖ salt)` and the data block
//! `DB = 00 .. 00 ‖ 01 ‖ salt` of 479 bytes, the encoded message is
//! `maskedDB ‖ H ‖ BC`, where `maskedDB` is `DB` masked by MGF1 seeded with
//! `H` and with its top bit cleared, so that the whole is below `2^4095`.

use vstd::prelude::*;
use vstd::slice::slice_subrange;
use crate::bytes::{zeros, copy_into, bytes_equal};
use crate::uint::{be_value, lemma_be_value_leading_zeros};
use crate::hash::{digest_of, sha256};
use crate::mgf1::{mgf1_mask, mgf1_xor, xor_bytes};

verus! {

/// Length of the encoded message in bytes.
pub const EM_LEN: usize = 512;

/// Length of the encoded message in bits: one less than the modulus has.
pub const EM_BITS: usize = 4095;

/// Length of the data block: `EM_LEN - HASH_LEN - 1`.
pub const DB_LEN: usize = 479;

/// The longest salt that fits: `EM_LEN - HASH_LEN - 2`.
pub const MAX_SALT_LEN: usize = 478;

/// Keeps the bits of the first byte that lie within `EM_BITS`.
pub const TOP_MASK: u8 = 0x7f;

/// The trailer byte of an encoded message.
pub const TRAILER: u8 = 0xbc;

/// Why a digest and a salt cannot be encoded.
#[derive(Clone, Copy, Debug, PartialEq, Eq)]
pub enum EncodingError {
    /// The digest is not 32 bytes long.
    DigestLength,
    /// The salt is longer than 478 bytes.
    SaltTooLong,
}

/// `H`, the digest of eight zero bytes, the message digest and the salt.
pub open spec fn pss_hash(m_hash: Seq<u8>, salt: Seq<u8>) -> Seq<u8> {
    digest_of(zeros(8) + m_hash + salt)
}

/// `DB`, the data block: zero padding, the byte 1 and the salt.
pub open spec fn pss_data_block(salt: Seq<u8>) -> Seq<u8> {
    zeros((478 - salt.len()) as nat) + seq![1u8] + salt
}

/// Clears the top bit of the first byte.
pub open spec fn clear_top_bit(s: Seq<u8>) -> Seq<u8> {
    s.update(0, s[0] & 0x7f)
}

/// `maskedDB`, the data block under the mask seeded with `h`.
pub open spec fn pss_masked(block: Seq<u8>, h: Seq<u8>) -> Seq<u8> {
    clear_top_bit(xor_bytes(block, mgf1_mask(h, 479)))
}

/// The encoded message for a 32-byte digest and a salt of at most 478 bytes.
pub open spec fn pss_encoded(m_hash: Seq<u8>, salt: Seq<u8>) -> Seq<u8> {
    pss_masked(pss_data_block(salt), pss_hash(m_hash, salt)) + pss_hash(m_hash, salt) + seq![
        0xbcu8,
    ]
}

/// `em` is the encoding of `m_hash` with some salt.
pub open spec fn pss_verifies(m_hash: Seq<u8>, em: Seq<u8>) -> bool {
    exists|salt: Seq<u8>|
        m_hash.len() == 32 && salt.len() <= 478 && #[trigger] pss_encoded(m_hash, salt) == em
}

/// Every encoding of a digest verifies against that digest.
pub proof fn lemma_pss_encoding_verifies(m_hash: Seq<u8>, salt: Seq<u8>)
    requires
        m_hash.len() == 32,
        salt.len() <= 478,
    ensures
        pss_verifies(m_hash, pss_encoded(m_hash, salt)),
{
}

/// What an encoded message shows of the digest and salt it was made from.
pub proof fn lemma_pss_encoded_parts(m_hash: Seq<u8>, salt: Seq<u8>)
    requires
        salt.len() <= 478,
    ensures
        pss_encoded(m_hash, salt).len() == 512,
        pss_encoded(m_hash, salt)[511] == 0xbc,
        pss_encoded(m_hash, salt)[0] & 0x80 == 0,
        pss_encoded(m_hash, salt).subrange(479, 511) == pss_hash(m_hash, salt),
        pss_masked(pss_encoded(m_hash, salt).subrange(0, 479), pss_hash(m_hash, salt))
            == pss_data_block(salt),
{
    let h = pss_hash(m_hash, salt);
    let block = pss_data_block(salt);
    let em = pss_encoded(m_hash, salt);
    let mask = mgf1_mask(h, 479);
    assert(em.subrange(479, 511) =~= h);
    assert(em.subrange(0, 479) =~= pss_masked(block, h));
    let first = block[0] ^ mask[0];
    assert((first & 0x7f) & 0x80 == 0) by (bit_vector);
    let back = pss_masked(em.subrange(0, 479), h);
    assert forall|i: int| 0 <= i < 479 implies back[i] == block[i] by {
        let d = block[i];
        let m = mask[i];
        if i == 0 {
            assert(d == 0 || d == 1);
            assert((((d ^ m) & 0x7f) ^ m) & 0x7f == d) by (bit_vector)
                requires
                    d == 0 || d == 1,
            ;
        } else {
            assert((d ^ m) ^ m == d) by (bit_vector);
        }
    }
    assert(back =~= block);
}

/// A 512-byte string whose parts fit a digest and a salt is their encoding.
pub proof fn lemma_pss_encoded_from_parts(m_hash: Seq<u8>, salt: Seq<u8>, em: Seq<u8>)
    requires
        salt.len() <= 478,
        em.len() == 512,
        em[511] == 0xbc,
        em[0] & 0x80 == 0,
        em.subrange(479, 511) == pss_hash(m_hash, salt),
        pss_masked(em.subrange(0, 479), pss_hash(m_hash, salt)) == pss_data_block(salt),
    ensures
        pss_encoded(m_hash, salt) == em,
{
    let h = pss_hash(m_hash, salt);
    let block = pss_data_block(salt);
    let mask = mgf1_mask(h, 479);
    let masked = em.subrange(0, 479);
    let again = pss_masked(block, h);
    assert forall|i: int| 0 <= i < 479 implies again[i] == masked[i] by {
        let x = masked[i];
        let m = mask[i];
        assert(block[i] == pss_masked(masked, h)[i]);
        if i == 0 {
            assert((((x ^ m) & 0x7f) ^ m) & 0x7f == x) by (bit_vector)
                requires
                    x & 0x80 == 0,
            ;
        } else {
            assert((x ^ m) ^ m == x) by (bit_vector);
        }
    }
    assert(again =~= masked);
    assert(pss_encoded(m_hash, salt) =~= em);
}

/// Computes `H` for a digest and a salt.
fn salted_hash(m_hash: &[u8], salt: &[u8]) -> (h: [u8; 32])
    requires
        m_hash@.len() == 32,
        salt@.len() <= 478,
    ensures
        h@ == pss_hash(m_hash@, salt@),
{
    let mut buf = [0u8; 518];
    let s_len: usize = salt.len();
    copy_into(&mut buf, 8, m_hash);
    copy_into(&mut buf, 40, salt);
    let message = slice_subrange(buf.as_slice(), 0, 40 + s_len);
    proof {
        assert(message@ =~= zeros(8) + m_hash@ + salt@);
    }
    sha256(message)
}

/// Encodes a message digest with a salt.
///
/// Fails when the digest is not 32 bytes long, and otherwise when the salt
/// is longer than 478 bytes.
pub fn emsa_pss_encode(m_hash: &[u8], salt: &[u8]) -> (r: Result<[u8; 512], EncodingError>)
    ensures
        r is Ok <==> m_hash@.len() == 32 && salt@.len() <= 478,
        match r {
            Ok(em) => em@ == pss_encoded(m_hash@, salt@),
            Err(EncodingError::DigestLength) => m_hash@.len() != 32,
            Err(EncodingError::SaltTooLong) => m_hash@.len() == 32 && salt@.len() > 478,
        },
{
    let s_len: usize = salt.len();
    if m_hash.len() != 32 {
        return Err(EncodingError::DigestLength);
    }
    if s_len > MAX_SALT_LEN {
        return Err(EncodingError::SaltTooLong);
    }
    let h = salted_hash(m_hash, salt);

    let mut db = [0u8; 479];
    db[DB_LEN - s_len - 1] = 0x01;
    copy_into(&mut db, DB_LEN - s_len, salt);
    proof {
        assert(db@ =~= pss_data_block(salt@));
    }
    mgf1_xor(&mut db, h.as_slice());
    db[0] &= TOP_MASK;

    let mut em = [0u8; 512];
    copy_into(&mut em, 0, db.as_slice());
    copy_into(&mut em, DB_LEN, h.as_slice());
    em[EM_LEN - 1] = TRAILER;
    proof {
        assert(em@ =~= pss_encoded(m_hash@, salt@));
    }
    Ok(em)
}

/// Tells whether `em` is the encoding of `m_hash` with some salt.
///
/// The salt is recovered from the data block: after unmasking, the block
/// must be zero bytes, the byte 1 and the salt, and `H` must be the digest
/// that belongs to `m_hash` and this salt.
pub fn emsa_pss_verify(m_hash: &[u8], em: &[u8; 512]) -> (ok: bool)
    ensures
        ok == pss_verifies(m_hash@, em@),
{
    if m_hash.len() != 32 {
        return false;
    }
    if em[EM_LEN - 1] != TRAILER {
        proof {
            assert forall|salt: Seq<u8>| salt.len() <= 478 implies #[trigger] pss_encoded(
                m_hash@,
                salt,
            ) != em@ by {
                lemma_pss_encoded_parts(m_hash@, salt);
            }
        }
        return false;
    }
    if em[0] & 0x80 != 0 {
        proof {
            assert forall|salt: Seq<u8>| salt.len() <= 478 implies #[trigger] pss_encoded(
                m_hash@,
                salt,
            ) != em@ by {
                lemma_pss_encoded_parts(m_hash@, salt);
            }
        }
        return false;
    }
    let h = slice_subrange(em.as_slice(), DB_LEN, EM_LEN - 1);
    let mut db = [0u8; 479];
    copy_into(&mut db, 0, slice_subrange(em.as_slice(), 0, DB_LEN));
    proof {
        assert(db@ =~= em@.subrange(0, 479));
    }
    mgf1_xor(&mut db, h);
    db[0] &= TOP_MASK;
    proof {
        assert(db@ =~= pss_masked(em@.subrange(0, 479), h@));
    }
    let mut p: usize = 0;
    while p < DB_LEN && db[p] == 0
        invariant
            p <= 479,
            forall|n: int| 0 <= n < p ==> db@[n] == 0,
        decreases 479 - p,
    {
        p = p + 1;
    }
    if p == DB_LEN || db[p] != 0x01 {
        proof {
            assert forall|salt: Seq<u8>| salt.len() <= 478 implies #[trigger] pss_encoded(
                m_hash@,
                salt,
            ) != em@ by {
                if pss_encoded(m_hash@, salt) == em@ {
                    lemma_pss_encoded_parts(m_hash@, salt);
                    let q = 478 - salt.len();
                    assert(pss_data_block(salt)[q] == 1);
                    if p < q {
                        assert(pss_data_block(salt)[p as int] == 0);
                    }
                    assert(false);
                }
            }
        }
        return false;
    }
    let salt = slice_subrange(db.as_slice(), p + 1, DB_LEN);
    let expected = salted_hash(m_hash, salt);
    let ok = bytes_equal(h, expected.as_slice());
    proof {
        if ok {
            assert(db@ =~= pss_data_block(salt@));
            lemma_pss_encoded_from_parts(m_hash@, salt@, em@);
        } else {
            assert forall|other: Seq<u8>| other.len() <= 478 implies #[trigger] pss_encoded(
                m_hash@,
                other,
            ) != em@ by {
                if pss_encoded(m_hash@, other) == em@ {
                    lemma_pss_encoded_parts(m_hash@, other);
                    let q = 478 - other.len();
                    assert(pss_data_block(other)[q] == 1);
                    if p < q {
                        assert(pss_data_block(other)[p as int] == 0);
                    }
                    assert(p == q);
                    assert(other =~= salt@);
                    assert(false);
                }
            }
        }
    }
    ok
}

/// Pads `input` on the left with zero bytes to 512 bytes.
pub fn left_pad(input: &[u8]) -> (out: [u8; 512])
    requires
        input@.len() <= 512,
    ensures
        out@ == zeros((512 - input@.len()) as nat) + input@,
        be_value(out@) == be_value(input@),
{
    let n: usize = input.len();
    let mut out = [0u8; 512];
    copy_into(&mut out, 512 - n, input);
    proof {
        assert(out@ =~= zeros((512 - n) as nat) + input@);
        lemma_be_value_leading_zeros(zeros((512 - n) as nat), input@);
    }
    out
}

} // verus!
