//! Modular exponentiation with a fixed 4-bit window over Montgomery
//! multiplication.
//!
//! The number of multiplications depends only on the width of the exponent,
//! not on its bits: every nibble costs four squarings and one table product.

use vstd::prelude::*;
use vstd::arithmetic::div_mod::{
    lemma_fundamental_div_mod,
    lemma_mod_bound,
    lemma_mod_twice,
    lemma_small_mod,
};
use vstd::arithmetic::power::{
    pow,
    lemma_pow0,
    lemma_pow1,
    lemma_pow_adds,
    lemma_pow_multiplies,
    lemma_pow_mod_noop,
};
use vstd::arithmetic::power2::{pow2, lemma_pow2_adds, lemma_pow2_unfold, lemma2_to64};
use crate::congruence::{
    congruent,
    lemma_congruent_by_multiple,
    lemma_congruent_mul,
    lemma_cancel_pow2,
};
use crate::limbs::{
    limbs_value,
    lemma_limbs_value_low_word,
    double_v,
    is_zero_v,
};
use crate::montgomery::{
    is_monty_constant,
    is_monty_product,
    montgomery,
    MontyReducer,
};
use crate::uint::{U4096, uint_range, lemma_u4096_bound};
use crate::word::word_base;

verus! {

/// What exponentiation returns: 1 for the exponent zero, whatever the
/// modulus, and `base^exp mod modulus` for every other exponent.
pub open spec fn modexp_spec(base: nat, exp: nat, modulus: nat) -> nat {
    if exp == 0 {
        1
    } else {
        (pow(base as int, exp) % (modulus as int)) as nat
    }
}

/// `e` and `d` are inverse exponents modulo `n`: raising to the power
/// `e * d` leaves every residue where it is.
pub open spec fn is_key_pair(e: nat, d: nat, n: nat) -> bool {
    &&& e > 0
    &&& d > 0
    &&& forall|r: nat| r < n ==> #[trigger] pow(r as int, e * d) % (n as int) == r
}

/// The exponent zero gives 1 for every base and modulus.
pub proof fn lemma_modexp_zero_exponent(base: nat, modulus: nat)
    ensures
        modexp_spec(base, 0, modulus) == 1,
{
}

/// For an exponent that is not zero the result lies below the modulus.
pub proof fn lemma_modexp_bound(base: nat, exp: nat, modulus: nat)
    requires
        exp > 0,
        modulus > 0,
    ensures
        modexp_spec(base, exp, modulus) < modulus,
{
    lemma_mod_bound(pow(base as int, exp), modulus as int);
}

/// With a key pair, exponentiation by `d` undoes exponentiation by `e` on
/// every residue: `modexp(modexp(m, e, n), d, n) == m` for `m < n`.
pub proof fn lemma_modexp_round_trip(m: nat, e: nat, d: nat, n: nat)
    requires
        is_key_pair(e, d, n),
        m < n,
    ensures
        modexp_spec(modexp_spec(m, e, n), d, n) == m,
{
    let c = pow(m as int, e) % (n as int);
    lemma_pow_mod_noop(pow(m as int, e), d, n as int);
    lemma_pow_multiplies(m as int, e, d);
    assert(pow(m as int, e * d) % (n as int) == m);
}

/// `a` is the Montgomery form of `v` modulo `m`: `a ≡ v * 2^4096`.
pub open spec fn is_monty_form(a: nat, v: int, m: nat) -> bool {
    congruent(a as int, v * uint_range(), m as int)
}

/// From `z * R ≡ x * y` and `x * y ≡ v * R` follows `z ≡ v`, the modulus
/// being odd.
proof fn lemma_monty_cancel(z: nat, x: nat, y: nat, v: int, m: nat)
    requires
        m % 2 == 1,
        is_monty_product(z, x, y, m),
        congruent((x * y) as int, v * uint_range(), m as int),
    ensures
        congruent(z as int, v, m as int),
{
    let r = uint_range() as int;
    assert(r * z == z * r) by (nonlinear_arith);
    assert(r * v == v * r) by (nonlinear_arith);
    lemma_cancel_pow2(z as int, v, 4096, m as int);
}

/// The Montgomery product of the forms of `va` and `vb` is the form of
/// `va * vb`.
proof fn lemma_monty_form_mul(z: nat, a: nat, va: int, b: nat, vb: int, m: nat)
    requires
        m % 2 == 1,
        is_monty_product(z, a, b, m),
        is_monty_form(a, va, m),
        is_monty_form(b, vb, m),
    ensures
        is_monty_form(z, va * vb, m),
{
    let r = uint_range() as int;
    lemma_congruent_mul(a as int, va * r, b as int, vb * r, m as int);
    assert((va * r) * (vb * r) == ((va * vb) * r) * r) by (nonlinear_arith);
    lemma_monty_cancel(z, a, b, (va * vb) * r, m);
}

/// The product of the forms of two powers is the form of the power with the
/// sum of the exponents.
proof fn lemma_monty_form_pow(z: nat, a: nat, ea: nat, b: nat, eb: nat, base: int, m: nat)
    requires
        m % 2 == 1,
        is_monty_product(z, a, b, m),
        is_monty_form(a, pow(base, ea), m),
        is_monty_form(b, pow(base, eb), m),
    ensures
        is_monty_form(z, pow(base, ea + eb), m),
{
    lemma_monty_form_mul(z, a, pow(base, ea), b, pow(base, eb), m);
    lemma_pow_adds(base, ea, eb);
}

/// Computes `2^8192 mod m`, the Montgomery form of `2^4096`, by doubling.
pub fn montgomery_rr(m: &U4096) -> (rr: U4096)
    requires
        m@ > 0,
    ensures
        rr@ == pow2(8192) % m@,
        is_monty_form(rr@, uint_range() as int, m@),
{
    let mut r = U4096::from_u8(1).wrapping_rem(m);
    let mut j: usize = 0;
    proof {
        lemma2_to64();
    }
    while j < 8192
        invariant
            j <= 8192,
            m@ > 0,
            r@ == pow2(j as nat) % m@,
        decreases 8192 - j,
    {
        let ghost before = r@ as int;
        let carry = double_v(&mut r.limbs);
        let ghost stored = r@;
        if carry == 1 || r.ge(m) {
            r = r.wrapping_sub(m);
        }
        proof {
            let range = uint_range() as int;
            let mv = m@ as int;
            lemma_u4096_bound(*m);
            assert(carry * range == if carry == 1 {
                range
            } else {
                0
            }) by (nonlinear_arith)
                requires
                    carry == 0 || carry == 1,
            ;
            assert(before < mv);
            // the new value is 2 * before, less m where that is m or more
            assert(r@ == if 2 * before >= mv {
                2 * before - mv
            } else {
                2 * before
            });
            lemma_pow2_unfold((j + 1) as nat);
            let p = pow2(j as nat) as int;
            lemma_fundamental_div_mod(p, mv);
            let qd = p / mv;
            if 2 * before >= mv {
                assert(2 * p == (2 * before - mv) + (2 * qd + 1) * mv) by (nonlinear_arith)
                    requires
                        p == mv * qd + before,
                ;
                lemma_congruent_by_multiple(2 * p, 2 * before - mv, 2 * qd + 1, mv);
            } else {
                assert(2 * p == 2 * before + (2 * qd) * mv) by (nonlinear_arith)
                    requires
                        p == mv * qd + before,
                ;
                lemma_congruent_by_multiple(2 * p, 2 * before, 2 * qd, mv);
            }
            lemma_small_mod(r@, m@);
            lemma_small_mod(before as nat, m@);
        }
        j = j + 1;
    }
    proof {
        lemma_pow2_adds(4096, 4096);
        assert(uint_range() == pow2(4096));
        lemma_mod_twice(pow2(8192) as int, m@ as int);
    }
    r
}

/// The number of Montgomery multiplications of one exponentiation, whatever
/// the exponent: sixteen for the table, one for the first nibble, five for
/// each of the other 1023 nibbles, and one to leave the Montgomery domain.
pub const MULTIPLICATIONS: u32 = 5133;

/// One Montgomery multiplication, counted.
fn multiply(x: &U4096, y: &U4096, m: &U4096, k: u32, count: &mut u32) -> (z: U4096)
    requires
        is_monty_constant(m.limbs@[0], k),
        *old(count) < 0xffff_ffff,
    ensures
        is_monty_product(z@, x@, y@, m@),
        *final(count) == *old(count) + 1,
{
    *count = *count + 1;
    montgomery(x, y, m, k)
}

/// The sixteen powers `base^0 .. base^15` in Montgomery form, made with
/// sixteen multiplications.
fn power_table(base: &U4096, rr: &U4096, m: &U4096, k: u32, count: &mut u32) -> (powers: [
    U4096;
    16
])
    requires
        m@ % 2 == 1,
        is_monty_constant(m.limbs@[0], k),
        is_monty_form(rr@, uint_range() as int, m@),
        *old(count) == 0,
    ensures
        *final(count) == 16,
        forall|n: int|
            0 <= n < 16 ==> is_monty_form(
                (#[trigger] powers@[n]).view(),
                pow(base@ as int, n as nat),
                m@,
            ),
{
    let one = U4096::from_u8(1);
    let mut powers = [U4096 { limbs: [0u32; 128] };16];
    let unit = multiply(&one, rr, m, k, count);
    let single = multiply(base, rr, m, k, count);
    proof {
        let r = uint_range() as int;
        let b = base@ as int;
        lemma_pow0(b);
        lemma_pow1(b);
        // 1 * rr ≡ R * R and base * rr ≡ (base * R) * R
        assert((1 * rr@) as int == rr@);
        lemma_monty_cancel(unit@, 1, rr@, r, m@);
        assert(1 * r == r);
        lemma_congruent_mul(b, b, rr@ as int, r * r, m@ as int);
        assert(b * (r * r) == (b * r) * r) by (nonlinear_arith);
        lemma_monty_cancel(single@, base@, rr@, b * r, m@);
    }
    powers[0] = unit;
    powers[1] = single;
    let mut idx: usize = 2;
    while idx < 16
        invariant
            2 <= idx <= 16,
            *count == idx,
            m@ % 2 == 1,
            is_monty_constant(m.limbs@[0], k),
            forall|n: int|
                0 <= n < idx ==> is_monty_form(
                    (#[trigger] powers@[n]).view(),
                    pow(base@ as int, n as nat),
                    m@,
                ),
        decreases 16 - idx,
    {
        let prev = powers[idx - 1];
        let first = powers[1];
        let next = multiply(&prev, &first, m, k, count);
        proof {
            lemma_monty_form_pow(next@, prev@, (idx - 1) as nat, first@, 1, base@ as int, m@);
        }
        powers[idx] = next;
        idx = idx + 1;
    }
    powers
}

/// Brings a number below `2^4096` into `[0, m)`: one subtraction of `m` where
/// it is due, and a full remainder should that not be enough.
fn final_reduce(z: U4096, m: &U4096) -> (r: U4096)
    requires
        m@ > 0,
    ensures
        r@ == z@ % m@,
{
    let mut zz = z;
    if zz.ge(m) {
        zz = zz.wrapping_sub(m);
        proof {
            lemma_congruent_by_multiple(z@ as int, zz@ as int, 1, m@ as int);
        }
        if zz.ge(m) {
            zz = zz.wrapping_rem(m);
            proof {
                lemma_mod_twice(z@ as int, m@ as int);
            }
        }
    }
    proof {
        if zz@ < m@ {
            lemma_small_mod(zz@, m@);
        }
    }
    zz
}

/// Raises `base` to the exponent `exp_data` modulo `modulus`.
///
/// The exponent is given by its 128 words, lowest first. The exponent zero
/// gives 1 at once. For any other exponent the modulus must be odd: an even
/// modulus is not supported and gives `None`.
pub fn decrypt(base: &U4096, exp_data: &[u32; 128], modulus: &U4096) -> (r: Option<U4096>)
    ensures
        r is None <==> (limbs_value(exp_data@) != 0 && modulus@ % 2 == 0),
        r matches Some(v) ==> v@ == modexp_spec(base@, limbs_value(exp_data@), modulus@),
        limbs_value(exp_data@) == 0 ==> (r matches Some(v) && v@ == 1),
{
    decrypt_counting(base, exp_data, modulus).0
}

/// Does what [`decrypt`] does and also tells how many Montgomery
/// multiplications it made.
///
/// For every exponent but zero and every odd modulus the number is
/// [`MULTIPLICATIONS`]: it does not depend on the bits of the exponent, nor
/// on the base or the modulus. Where nothing is computed it is zero.
pub fn decrypt_counting(base: &U4096, exp_data: &[u32; 128], modulus: &U4096) -> (r: (
    Option<U4096>,
    u32,
))
    ensures
        r.0 is None <==> (limbs_value(exp_data@) != 0 && modulus@ % 2 == 0),
        r.0 matches Some(v) ==> v@ == modexp_spec(base@, limbs_value(exp_data@), modulus@),
        limbs_value(exp_data@) == 0 ==> (r.0 matches Some(v) && v@ == 1),
        r.1 == (if limbs_value(exp_data@) != 0 && modulus@ % 2 == 1 {
            MULTIPLICATIONS
        } else {
            0u32
        }),
{
    let mut count: u32 = 0;
    if is_zero_v(exp_data.as_slice()) {
        return (Some(U4096::from_u8(1)), count);
    }
    if !modulus.is_odd() {
        return (None, count);
    }
    let mr = MontyReducer::new(modulus);
    let k: u32 = mr.n0inv;
    let rr = montgomery_rr(modulus);
    let one = U4096::from_u8(1);
    let powers = power_table(base, &rr, modulus, k, &mut count);

    let mut z = powers[0];
    let ghost mut e_acc: nat = 0;
    let mut i: usize = 128;
    proof {
        assert(exp_data@.skip(128) =~= Seq::<u32>::empty());
        assert(limbs_value(Seq::<u32>::empty()) == 0);
    }
    while i > 0
        invariant
            i <= 128,
            modulus@ % 2 == 1,
            is_monty_constant(modulus.limbs@[0], k),
            forall|n: int|
                0 <= n < 16 ==> is_monty_form(
                    (#[trigger] powers@[n]).view(),
                    pow(base@ as int, n as nat),
                    modulus@,
                ),
            e_acc == limbs_value(exp_data@.skip(i as int)),
            is_monty_form(z@, pow(base@ as int, e_acc), modulus@),
            count == (if i == 128 {
                16
            } else {
                12 + 40 * (128 - i)
            }),
        decreases i,
    {
        i = i - 1;
        let w: u32 = exp_data[i];
        let mut yi: u32 = w;
        let mut j: u32 = 0;
        let ghost e_hi = e_acc;
        let ghost mut top: nat = 0;
        proof {
            lemma2_to64();
            assert(e_hi * 1 == e_hi) by (nonlinear_arith);
            assert(w * 1 == w) by (nonlinear_arith);
        }
        while j < 32
            invariant
                j <= 32,
                j % 4 == 0,
                i < 128,
                modulus@ % 2 == 1,
                is_monty_constant(modulus.limbs@[0], k),
                forall|n: int|
                    0 <= n < 16 ==> is_monty_form(
                        (#[trigger] powers@[n]).view(),
                        pow(base@ as int, n as nat),
                        modulus@,
                    ),
                w * pow2(j as nat) == top * word_base() + yi,
                e_acc == e_hi * pow2(j as nat) + top,
                is_monty_form(z@, pow(base@ as int, e_acc), modulus@),
                (i == 127 && j == 0) ==> e_acc == 0,
                count == (if i == 127 && j == 0 {
                    16
                } else {
                    12 + 40 * (127 - i) + 5 * (j / 4)
                }),
            decreases 32 - j,
        {
            let ghost b = base@ as int;
            let ghost e0 = e_acc;
            let ghost mut e16: nat = e0;
            if i != 127 || j != 0 {
                let z2 = multiply(&z, &z, modulus, k, &mut count);
                let z4 = multiply(&z2, &z2, modulus, k, &mut count);
                let z8 = multiply(&z4, &z4, modulus, k, &mut count);
                let z16 = multiply(&z8, &z8, modulus, k, &mut count);
                proof {
                    lemma_monty_form_pow(z2@, z@, e0, z@, e0, b, modulus@);
                    lemma_monty_form_pow(z4@, z2@, e0 + e0, z2@, e0 + e0, b, modulus@);
                    lemma_monty_form_pow(z8@, z4@, 4 * e0, z4@, 4 * e0, b, modulus@);
                    lemma_monty_form_pow(z16@, z8@, 8 * e0, z8@, 8 * e0, b, modulus@);
                    e16 = 16 * e0;
                }
                z = z16;
            }
            let nib: u32 = yi >> 28;
            let shifted: u32 = yi << 4;
            proof {
                assert(nib < 16 && (yi as u64) * 16 == (nib as u64) * 0x1_0000_0000 + (
                shifted as u64)) by (bit_vector)
                    requires
                        nib == yi >> 28,
                        shifted == yi << 4,
                ;
            }
            let entry = powers[nib as usize];
            let next = multiply(&z, &entry, modulus, k, &mut count);
            proof {
                assert(e16 == 16 * e0);
                lemma_monty_form_pow(next@, z@, e16, entry@, nib as nat, b, modulus@);
                lemma_pow2_adds(j as nat, 4);
                lemma2_to64();
                let p = pow2(j as nat) as int;
                let bb = word_base() as int;
                assert(pow2((j + 4) as nat) == p * 16);
                assert(w * (p * 16) == (top * 16 + nib) * bb + shifted) by (nonlinear_arith)
                    requires
                        w * p == top * bb + yi,
                        yi * 16 == nib * bb + shifted,
                ;
                assert(16 * e0 + nib == e_hi * (p * 16) + (top * 16 + nib)) by (nonlinear_arith)
                    requires
                        e0 == e_hi * p + top,
                ;
                top = (top * 16 + nib) as nat;
                e_acc = (16 * e0 + nib) as nat;
            }
            z = next;
            yi = shifted;
            j = j + 4;
        }
        proof {
            // all 32 bits are consumed: the word is the whole of `top`
            let bb = word_base() as int;
            assert(pow2(32) == bb);
            assert(w * bb == top * bb + yi);
            assert(yi == 0 && top == w) by (nonlinear_arith)
                requires
                    w * bb == top * bb + yi,
                    0 <= yi < bb,
                    bb > 0,
            ;
            lemma_limbs_value_low_word(exp_data@.skip(i as int));
            assert(exp_data@.skip(i as int).skip(1) =~= exp_data@.skip(i + 1));
            assert(e_hi * bb == bb * e_hi) by (nonlinear_arith);
        }
    }
    proof {
        assert(exp_data@.skip(0) =~= exp_data@);
    }
    let out = multiply(&z, &one, modulus, k, &mut count);
    proof {
        let e = limbs_value(exp_data@);
        let v = pow(base@ as int, e);
        assert((z@ * 1) as int == z@ as int) by (nonlinear_arith);
        lemma_monty_cancel(out@, z@, 1, v, modulus@);
    }
    let r = final_reduce(out, modulus);
    proof {
        let e = limbs_value(exp_data@);
        let v = pow(base@ as int, e);
        lemma_mod_bound(out@ as int, modulus@ as int);
        assert(r@ == v % (modulus@ as int));
    }
    (Some(r), count)
}

} // verus!
