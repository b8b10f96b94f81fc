//! The 4096-bit unsigned integer: 128 little-endian words, with its
//! big-endian byte encoding, comparison, subtraction and remainder.

use vstd::prelude::*;
use vstd::arithmetic::power2::{pow2, lemma_pow2_adds, lemma2_to64};
use vstd::arithmetic::div_mod::lemma_small_mod;
use crate::limbs::{
    limbs_value,
    word_weight,
    lemma_limbs_value_bound,
    lemma_limbs_value_injective,
    lemma_limbs_value_low_word,
    lemma_limbs_value_take_step,
    lemma_limbs_value_parity,
    lemma_limbs_value_zero,
    sub_vv,
    ge_vv,
    is_zero_v,
};
use crate::word::word_base;

verus! {

/// `2^4096`, the number of values of a [`U4096`].
pub open spec fn uint_range() -> nat {
    word_weight(128)
}

/// The number that a big-endian byte sequence stands for.
pub open spec fn be_value(s: Seq<u8>) -> nat
    decreases s.len(),
{
    if s.len() == 0 {
        0
    } else {
        be_value(s.drop_last()) * 256 + s.last() as nat
    }
}

/// The value of a concatenation of big-endian byte sequences.
pub proof fn lemma_be_value_concat(a: Seq<u8>, b: Seq<u8>)
    ensures
        be_value(a + b) == be_value(a) * pow2(8 * b.len()) + be_value(b),
    decreases b.len(),
{
    lemma2_to64();
    if b.len() == 0 {
        assert(a + b =~= a);
        assert(be_value(b) == 0);
        let va = be_value(a) as int;
        assert(va * pow2(0) == va) by (nonlinear_arith)
            requires
                pow2(0) == 1,
        ;
    } else {
        let b0 = b.drop_last();
        assert((a + b).drop_last() =~= a + b0);
        assert((a + b).last() == b.last());
        lemma_be_value_concat(a, b0);
        lemma_pow2_adds(8 * b0.len(), 8);
        let va = be_value(a) as int;
        let vb0 = be_value(b0) as int;
        let shorter = pow2(8 * b0.len()) as int;
        let p = pow2(8 * b.len()) as int;
        assert(p == shorter * 256);
        assert((va * shorter + vb0) * 256 == va * p + vb0 * 256) by (nonlinear_arith)
            requires
                p == shorter * 256,
        ;
    }
}

/// Leading zero bytes do not change the value.
pub proof fn lemma_be_value_leading_zeros(z: Seq<u8>, s: Seq<u8>)
    requires
        forall|i: int| 0 <= i < z.len() ==> z[i] == 0,
    ensures
        be_value(z + s) == be_value(s),
{
    lemma_be_value_zeros(z);
    lemma_be_value_concat(z, s);
    assert(0 * pow2(8 * s.len()) == 0) by (nonlinear_arith);
}

/// A sequence of zero bytes stands for zero.
pub proof fn lemma_be_value_zeros(z: Seq<u8>)
    requires
        forall|i: int| 0 <= i < z.len() ==> z[i] == 0,
    ensures
        be_value(z) == 0,
    decreases z.len(),
{
    if z.len() > 0 {
        assert forall|i: int| 0 <= i < z.drop_last().len() implies z.drop_last()[i] == 0 by {
            assert(z.drop_last()[i] == z[i]);
        }
        lemma_be_value_zeros(z.drop_last());
    }
}

/// The `len` big-endian bytes of `v`, taken modulo `256^len`.
pub open spec fn be_bytes(v: nat, len: nat) -> Seq<u8>
    decreases len,
{
    if len == 0 {
        Seq::empty()
    } else {
        be_bytes(v / 256, (len - 1) as nat).push((v % 256) as u8)
    }
}

/// A byte sequence is the big-endian encoding of the number it stands for.
pub proof fn lemma_be_bytes_of_value(s: Seq<u8>)
    ensures
        be_bytes(be_value(s), s.len()) == s,
    decreases s.len(),
{
    if s.len() > 0 {
        lemma_be_bytes_of_value(s.drop_last());
        assert(s =~= s.drop_last().push(s.last()));
    }
}

/// The big-endian bytes of a number that fits stand for that number.
pub proof fn lemma_be_value_of_bytes(v: nat, len: nat)
    requires
        v < pow2(8 * len),
    ensures
        be_value(be_bytes(v, len)) == v,
        be_bytes(v, len).len() == len,
    decreases len,
{
    lemma2_to64();
    if len > 0 {
        lemma_pow2_adds(8 * (len - 1) as nat, 8);
        let p = pow2(8 * (len - 1) as nat) as int;
        assert(v / 256 < p) by (nonlinear_arith)
            requires
                v < p * 256,
                p > 0,
        ;
        lemma_be_value_of_bytes(v / 256, (len - 1) as nat);
        let s = be_bytes(v, len);
        assert(s.drop_last() =~= be_bytes(v / 256, (len - 1) as nat));
    }
}

/// Four bytes stand for the word that holds them from the top down.
pub proof fn lemma_be_value_word(s: Seq<u8>)
    requires
        s.len() == 4,
    ensures
        be_value(s) == s[0] * 0x100_0000 + s[1] * 0x1_0000 + s[2] * 0x100 + s[3],
{
    let s3 = s.drop_last();
    let s2 = s3.drop_last();
    let s1 = s2.drop_last();
    let s0 = s1.drop_last();
    assert(s0.len() == 0);
    assert(be_value(s0) == 0);
    assert(be_value(s1) == be_value(s0) * 256 + s1.last());
    assert(be_value(s2) == be_value(s1) * 256 + s2.last());
    assert(be_value(s3) == be_value(s2) * 256 + s3.last());
    assert(be_value(s) == be_value(s3) * 256 + s.last());
    assert(s1.last() == s[0]);
    assert(s2.last() == s[1]);
    assert(s3.last() == s[2]);
}

/// An unsigned integer below `2^4096`, held as 128 words, lowest first.
#[derive(Clone, Copy, Debug, PartialEq, Eq)]
pub struct U4096 {
    pub limbs: [u32; 128],
}

impl View for U4096 {
    type V = nat;

    /// The number that the words stand for.
    open spec fn view(&self) -> nat {
        limbs_value(self.limbs@)
    }
}

/// Two [`U4096`] that stand for the same number are the same.
pub proof fn lemma_u4096_injective(x: U4096, y: U4096)
    requires
        x@ == y@,
    ensures
        x == y,
{
    lemma_limbs_value_injective(x.limbs@, y.limbs@);
    assert(x.limbs =~= y.limbs);
}

/// Every [`U4096`] is below `2^4096`.
pub proof fn lemma_u4096_bound(x: U4096)
    ensures
        x@ < uint_range(),
{
    lemma_limbs_value_bound(x.limbs@);
}

/// The trusted edge to `crypto_bigint`: `U4096::wrapping_rem` applied to two
/// numbers given as 512 big-endian bytes, which `U4096::from_be_slice` reads
/// and `Encoding::to_be_bytes` writes.
///
/// For a dividend that is not below the divisor the outside function gives
/// the remainder. This is all that is claimed of it: a zero divisor makes it
/// panic, and for a dividend below the divisor the version in use gives
/// zero, so both are left out.
#[verifier::external_body]
fn be_wrapping_rem(a: &[u8; 512], m: &[u8; 512]) -> (r: [u8; 512])
    requires
        be_value(m@) != 0,
        be_value(a@) >= be_value(m@),
    ensures
        be_value(r@) == be_value(a@) % be_value(m@),
{
    let a = crypto_bigint::U4096::from_be_slice(a);
    let m = crypto_bigint::U4096::from_be_slice(m);
    crypto_bigint::Encoding::to_be_bytes(&a.wrapping_rem(&m))
}

impl U4096 {
    /// The number zero.
    pub fn zero() -> (r: U4096)
        ensures
            r@ == 0,
    {
        let r = U4096 { limbs: [0u32; 128] };
        proof {
            lemma_limbs_value_zero(r.limbs@);
        }
        r
    }

    /// The number `v`.
    pub fn from_u8(v: u8) -> (r: U4096)
        ensures
            r@ == v,
    {
        U4096::from_u32(v as u32)
    }

    /// The number `v`.
    pub fn from_u32(v: u32) -> (r: U4096)
        ensures
            r@ == v,
    {
        let mut limbs = [0u32; 128];
        proof {
            lemma_limbs_value_zero(limbs@);
            lemma_limbs_value_low_word(limbs@);
        }
        let ghost zeros = limbs@;
        limbs[0] = v;
        proof {
            lemma_limbs_value_low_word(limbs@);
            assert(limbs@.skip(1) =~= zeros.skip(1));
            let t = limbs_value(zeros.skip(1)) as int;
            assert(word_base() * t == 0 ==> t == 0) by (nonlinear_arith);
        }
        U4096 { limbs }
    }

    /// Builds the number from its words, lowest first.
    pub fn from_uint_array(arr: [u32; 128]) -> (r: U4096)
        ensures
            r.limbs@ == arr@,
            r@ == limbs_value(arr@),
    {
        U4096 { limbs: arr }
    }

    /// The words of the number, lowest first.
    pub fn to_uint_array(&self) -> (r: [u32; 128])
        ensures
            r@ == self.limbs@,
            limbs_value(r@) == self@,
    {
        self.limbs
    }

    /// Reads a number from exactly 512 big-endian bytes.
    pub fn from_be_slice(bytes: &[u8]) -> (r: U4096)
        requires
            bytes@.len() == 512,
        ensures
            r@ == be_value(bytes@),
    {
        let mut limbs = [0u32; 128];
        let mut k: usize = 0;
        proof {
            assert(limbs@.take(0) =~= Seq::<u32>::empty());
            assert(bytes@.skip(512) =~= Seq::<u8>::empty());
            assert(limbs_value(Seq::<u32>::empty()) == 0);
            assert(be_value(Seq::<u8>::empty()) == 0);
        }
        while k < 128
            invariant
                k <= 128,
                bytes@.len() == 512,
                limbs_value(limbs@.take(k as int)) == be_value(bytes@.skip(512 - 4 * k)),
            decreases 128 - k,
        {
            let p: usize = 512 - 4 * k;
            let b0: u8 = bytes[p - 4];
            let b1: u8 = bytes[p - 3];
            let b2: u8 = bytes[p - 2];
            let b3: u8 = bytes[p - 1];
            let w: u32 = ((b0 as u32) << 24) | ((b1 as u32) << 16) | ((b2 as u32) << 8) | (
            b3 as u32);
            let ghost before = limbs@;
            limbs[k] = w;
            proof {
                assert(w == b0 * 0x100_0000 + b1 * 0x1_0000 + b2 * 0x100 + b3) by (bit_vector)
                    requires
                        w == ((b0 as u32) << 24) | ((b1 as u32) << 16) | ((b2 as u32) << 8) | (
                        b3 as u32),
                ;
                let group = bytes@.subrange(p - 4, p as int);
                let rest = bytes@.skip(p as int);
                assert(bytes@.skip(p - 4) =~= group + rest);
                lemma_be_value_concat(group, rest);
                lemma_be_value_word(group);
                assert(limbs@.take(k as int) =~= before.take(k as int));
                lemma_limbs_value_take_step(limbs@, k as int);
                assert(8 * rest.len() == 32 * k);
            }
            k = k + 1;
        }
        proof {
            assert(limbs@.take(128) =~= limbs@);
            assert(bytes@.skip(0) =~= bytes@);
        }
        U4096 { limbs }
    }

    /// Reads a number from 512 big-endian bytes.
    pub fn from_be_bytes(bytes: [u8; 512]) -> (r: U4096)
        ensures
            r@ == be_value(bytes@),
    {
        U4096::from_be_slice(bytes.as_slice())
    }

    /// Writes the number as 512 big-endian bytes.
    pub fn to_be_bytes(&self) -> (r: [u8; 512])
        ensures
            be_value(r@) == self@,
            r@ == be_bytes(self@, 512),
    {
        let mut out = [0u8; 512];
        let mut k: usize = 0;
        proof {
            assert(self.limbs@.take(0) =~= Seq::<u32>::empty());
            assert(out@.skip(512) =~= Seq::<u8>::empty());
            assert(limbs_value(Seq::<u32>::empty()) == 0);
            assert(be_value(Seq::<u8>::empty()) == 0);
        }
        while k < 128
            invariant
                k <= 128,
                be_value(out@.skip(512 - 4 * k)) == limbs_value(self.limbs@.take(k as int)),
            decreases 128 - k,
        {
            let p: usize = 512 - 4 * k;
            let w: u32 = self.limbs[k];
            let b0: u8 = (w >> 24) as u8;
            let b1: u8 = #[verifier::truncate]
            ((w >> 16) as u8);
            let b2: u8 = #[verifier::truncate]
            ((w >> 8) as u8);
            let b3: u8 = #[verifier::truncate]
            (w as u8);
            let ghost before = out@;
            out[p - 4] = b0;
            out[p - 3] = b1;
            out[p - 2] = b2;
            out[p - 1] = b3;
            proof {
                assert(w >> 24 <= 0xff && w == b0 * 0x100_0000 + b1 * 0x1_0000 + b2 * 0x100 + b3)
                    by (bit_vector)
                    requires
                        b0 == (w >> 24) as u8,
                        b1 == (w >> 16) as u8,
                        b2 == (w >> 8) as u8,
                        b3 == w as u8,
                ;
                let group = out@.subrange(p - 4, p as int);
                let rest = out@.skip(p as int);
                assert(rest =~= before.skip(p as int));
                assert(out@.skip(p - 4) =~= group + rest);
                lemma_be_value_concat(group, rest);
                lemma_be_value_word(group);
                lemma_limbs_value_take_step(self.limbs@, k as int);
                assert(8 * rest.len() == 32 * k);
            }
            k = k + 1;
        }
        proof {
            assert(self.limbs@.take(128) =~= self.limbs@);
            assert(out@.skip(0) =~= out@);
            lemma_be_bytes_of_value(out@);
        }
        out
    }

    /// Tells whether the number is odd.
    pub fn is_odd(&self) -> (r: bool)
        ensures
            r == (self@ % 2 == 1),
    {
        let w: u32 = self.limbs[0];
        proof {
            lemma_limbs_value_parity(self.limbs@);
            assert((w & 1 == 1) == (w % 2 == 1)) by (bit_vector);
        }
        w & 1 == 1
    }

    /// Tells whether the number is zero.
    pub fn is_zero(&self) -> (r: bool)
        ensures
            r == (self@ == 0),
    {
        is_zero_v(self.limbs.as_slice())
    }

    /// Tells whether `self >= rhs`.
    pub fn ge(&self, rhs: &U4096) -> (r: bool)
        ensures
            r == (self@ >= rhs@),
    {
        ge_vv(self.limbs.as_slice(), rhs.limbs.as_slice())
    }

    /// Computes `self - rhs` modulo `2^4096`.
    pub fn wrapping_sub(&self, rhs: &U4096) -> (r: U4096)
        ensures
            self@ >= rhs@ ==> r@ == self@ - rhs@,
            self@ < rhs@ ==> r@ == self@ + uint_range() - rhs@,
    {
        let mut out = U4096 { limbs: [0u32; 128] };
        let c = sub_vv(&mut out.limbs, self.limbs.as_slice(), rhs.limbs.as_slice());
        proof {
            lemma_u4096_bound(out);
            lemma_u4096_bound(*self);
            lemma_u4096_bound(*rhs);
            let r = uint_range() as int;
            assert(c == 0 ==> c * r == 0) by (nonlinear_arith);
            assert(c == 1 ==> c * r == r) by (nonlinear_arith);
        }
        out
    }

    /// Computes `self % rhs` for a divisor that is not zero.
    ///
    /// A dividend below the divisor is its own remainder; any other is
    /// handed to `crypto_bigint`.
    pub fn wrapping_rem(&self, rhs: &U4096) -> (r: U4096)
        requires
            rhs@ != 0,
        ensures
            r@ == self@ % rhs@,
    {
        if !self.ge(rhs) {
            proof {
                lemma_small_mod(self@, rhs@);
            }
            return *self;
        }
        let a = self.to_be_bytes();
        let m = rhs.to_be_bytes();
        let q = be_wrapping_rem(&a, &m);
        U4096::from_be_bytes(q)
    }
}

} // verus!
