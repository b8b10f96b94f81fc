//! The signing service: PSS encoding followed by the private-key transform,
//! and the check of a signature with the public exponent.
//!
//! The keys are fixed for the life of the device: nothing here changes one.

use vstd::prelude::*;
use crate::limbs::limbs_value;
use crate::modexp::{
    decrypt,
    modexp_spec,
    is_key_pair,
    lemma_modexp_bound,
    lemma_modexp_round_trip,
};
use crate::pss::{
    emsa_pss_encode,
    emsa_pss_verify,
    left_pad,
    pss_encoded,
    pss_verifies,
    lemma_pss_encoded_parts,
    lemma_pss_encoding_verifies,
    EncodingError,
};
use crate::uint::{
    U4096,
    be_value,
    be_bytes,
    uint_range,
    lemma_be_bytes_of_value,
    lemma_be_value_of_bytes,
};

verus! {

/// A private key: the modulus `n` and the private exponent `d`.
#[derive(Clone, Copy, Debug, PartialEq, Eq)]
pub struct PrivateKey {
    pub n: U4096,
    pub d: U4096,
}

/// A public key: the modulus `n` and the public exponent `e`.
#[derive(Clone, Copy, Debug, PartialEq, Eq)]
pub struct PublicKey {
    pub n: U4096,
    pub e: U4096,
}

/// Why a signature could not be made.
#[derive(Clone, Copy, Debug, PartialEq, Eq)]
pub enum SignError {
    /// The digest or the salt has a length that cannot be encoded.
    Encoding(EncodingError),
    /// The modulus is even, which the exponentiation does not support.
    EvenModulus,
}

/// The signature of a digest under a salt: the encoded message, read as a
/// number, raised to `d` modulo `n`, written as 512 big-endian bytes.
pub open spec fn signature_of(hashed: Seq<u8>, salt: Seq<u8>, d: nat, n: nat) -> Seq<u8> {
    be_bytes(modexp_spec(be_value(pss_encoded(hashed, salt)), d, n), 512)
}

/// `signature` is 512 bytes that, raised to `e` modulo `n`, give an encoding
/// of `hashed`.
pub open spec fn signature_verifies(hashed: Seq<u8>, signature: Seq<u8>, e: nat, n: nat) -> bool {
    &&& signature.len() == 512
    &&& (e == 0 || n % 2 == 1)
    &&& pss_verifies(hashed, be_bytes(modexp_spec(be_value(signature), e, n), 512))
}

/// With a key pair, every signature of a digest verifies: raising it to the
/// public exponent gives the encoded message back.
pub proof fn lemma_signature_verifies(hashed: Seq<u8>, salt: Seq<u8>, e: nat, d: nat, n: nat)
    requires
        is_key_pair(e, d, n),
        n % 2 == 1,
        n < uint_range(),
        hashed.len() == 32,
        salt.len() <= 478,
        be_value(pss_encoded(hashed, salt)) < n,
    ensures
        signature_verifies(hashed, signature_of(hashed, salt, d, n), e, n),
{
    let em = pss_encoded(hashed, salt);
    let c = be_value(em);
    let s = modexp_spec(c, d, n);
    lemma_modexp_bound(c, d, n);
    lemma_be_value_of_bytes(s, 512);
    assert(d * e == e * d) by (nonlinear_arith);
    assert(is_key_pair(d, e, n));
    lemma_modexp_round_trip(c, d, e, n);
    lemma_pss_encoded_parts(hashed, salt);
    lemma_be_bytes_of_value(em);
    lemma_pss_encoding_verifies(hashed, salt);
}

/// Signs a 32-byte digest with the given salt and private key `(d, n)`.
///
/// The exponent is given by its 128 words, lowest first. The signature is
/// always exactly 512 bytes.
pub fn sign_pss_with_salt(hashed: &[u8], salt: &[u8], d: &[u32; 128], n: &U4096) -> (r: Result<
    [u8; 512],
    SignError,
>)
    ensures
        r is Ok <==> {
            &&& hashed@.len() == 32
            &&& salt@.len() <= 478
            &&& (limbs_value(d@) == 0 || n@ % 2 == 1)
        },
        match r {
            Ok(signature) => {
                &&& signature@.len() == 512
                &&& signature@ == signature_of(hashed@, salt@, limbs_value(d@), n@)
            },
            Err(SignError::Encoding(EncodingError::DigestLength)) => hashed@.len() != 32,
            Err(SignError::Encoding(EncodingError::SaltTooLong)) => hashed@.len() == 32
                && salt@.len() > 478,
            Err(SignError::EvenModulus) => {
                &&& hashed@.len() == 32
                &&& salt@.len() <= 478
                &&& limbs_value(d@) != 0
                &&& n@ % 2 == 0
            },
        },
{
    let em = match emsa_pss_encode(hashed, salt) {
        Ok(em) => em,
        Err(e) => {
            return Err(SignError::Encoding(e));
        },
    };
    let c = U4096::from_be_slice(em.as_slice());
    let m = match decrypt(&c, d, n) {
        Some(m) => m,
        None => {
            return Err(SignError::EvenModulus);
        },
    };
    let m_bytes = m.to_be_bytes();
    let signature = left_pad(m_bytes.as_slice());
    proof {
        assert(signature@ =~= m_bytes@);
    }
    Ok(signature)
}

/// Tells whether `signature` is a signature of the digest `hashed` under the
/// public key `(e, n)`: whether it has 512 bytes and, raised to `e` modulo
/// `n`, gives an encoding of `hashed` with some salt.
pub fn verify_pss(hashed: &[u8], signature: &[u8], e: &[u32; 128], n: &U4096) -> (ok: bool)
    ensures
        ok == signature_verifies(hashed@, signature@, limbs_value(e@), n@),
{
    if signature.len() != 512 {
        return false;
    }
    let s = U4096::from_be_slice(signature);
    let m = match decrypt(&s, e, n) {
        Some(m) => m,
        None => {
            return false;
        },
    };
    let em = m.to_be_bytes();
    emsa_pss_verify(hashed, &em)
}

impl PrivateKey {
    /// Signs a 32-byte digest with the given salt.
    pub fn sign(&self, hashed: &[u8], salt: &[u8]) -> (r: Result<[u8; 512], SignError>)
        ensures
            r is Ok <==> {
                &&& hashed@.len() == 32
                &&& salt@.len() <= 478
                &&& (self.d@ == 0 || self.n@ % 2 == 1)
            },
            match r {
                Ok(signature) => signature@ == signature_of(hashed@, salt@, self.d@, self.n@),
                Err(SignError::Encoding(EncodingError::DigestLength)) => hashed@.len() != 32,
                Err(SignError::Encoding(EncodingError::SaltTooLong)) => hashed@.len() == 32
                    && salt@.len() > 478,
                Err(SignError::EvenModulus) => {
                    &&& hashed@.len() == 32
                    &&& salt@.len() <= 478
                    &&& self.d@ != 0
                    &&& self.n@ % 2 == 0
                },
            },
    {
        let d = self.d.to_uint_array();
        sign_pss_with_salt(hashed, salt, &d, &self.n)
    }
}

impl PublicKey {
    /// Tells whether `signature` is a signature of the digest `hashed`.
    pub fn verify(&self, hashed: &[u8], signature: &[u8]) -> (ok: bool)
        ensures
            ok == signature_verifies(hashed@, signature@, self.e@, self.n@),
    {
        let e = self.e.to_uint_array();
        verify_pss(hashed, signature, &e, &self.n)
    }
}

} // verus!
