//! Montgomery multiplication on 4096-bit integers.
//!
//! With `R = 2^4096` and an odd modulus `m`, the product of `x` and `y` in the
//! Montgomery domain is a number `z < R` with `z * R ≡ x * y (mod m)`. The
//! result is not reduced below `m`: callers apply the final correction.

use vstd::prelude::*;
use vstd::arithmetic::div_mod::{lemma_fundamental_div_mod, lemma_mod_twice};
use vstd::arithmetic::power2::{pow2, lemma_pow2_pos, lemma_pow2_unfold, lemma2_to64};
use crate::congruence::{
    congruent,
    lemma_congruent_by_multiple,
    lemma_congruent_mul,
    lemma_congruent_add,
};
use crate::limbs::{
    limbs_value,
    word_weight,
    lemma_word_weight_step,
    lemma_limbs_value_bound,
    lemma_limbs_value_take_step,
    lemma_limbs_value_low_word,
    lemma_limbs_value_push,
    lemma_limbs_value_zero,
    lemma_limbs_value_parity,
    add_mul_vvw,
    sub_vv,
};
use crate::uint::{U4096, uint_range, lemma_u4096_bound};
use crate::word::{word_base, WORD_BITS};

verus! {

/// `k` is the Montgomery constant for a modulus whose lowest word is `m0`:
/// `m0 * k ≡ -1 (mod 2^32)`.
pub open spec fn is_monty_constant(m0: u32, k: u32) -> bool {
    (m0 * k + 1) % (word_base() as int) == 0
}

/// A modulus that has a Montgomery constant is odd.
pub proof fn lemma_monty_constant_odd(m0: u32, k: u32)
    requires
        is_monty_constant(m0, k),
    ensures
        m0 % 2 == 1,
{
    let p = m0 * k + 1;
    lemma_fundamental_div_mod(p, word_base() as int);
    let j = p / (word_base() as int);
    assert(p == 0x1_0000_0000 * j);
    if m0 % 2 == 0 {
        let a = m0 / 2;
        assert(m0 == 2 * a);
        assert(m0 * k == 2 * (a * k)) by (nonlinear_arith)
            requires
                m0 == 2 * a,
        ;
        assert(0x1_0000_0000 * j == 2 * (0x8000_0000 * j)) by (nonlinear_arith);
        assert(false);
    }
}

/// The square of a multiple of `d`, reduced modulo a multiple of `d * d`, is
/// a multiple of `d * d`.
proof fn lemma_square_divisible(t: int, d: int, e: int, t2: int)
    requires
        d > 0,
        e > 0,
        t % d == 0,
        t2 == (t * t) % (d * d * e),
    ensures
        t2 % (d * d) == 0,
{
    let q = t / d;
    let n = d * d * e;
    assert(n > 0 && d * d > 0) by (nonlinear_arith)
        requires
            d > 0,
            e > 0,
            n == d * d * e,
    ;
    lemma_fundamental_div_mod(t, d);
    lemma_fundamental_div_mod(t * t, n);
    let j = (t * t) / n;
    assert(t2 == 0 + (q * q - e * j) * (d * d)) by (nonlinear_arith)
        requires
            t == d * q,
            t * t == n * j + t2,
            n == d * d * e,
    ;
    lemma_congruent_by_multiple(t2, 0, q * q - e * j, d * d);
    assert(0int % (d * d) == 0) by (nonlinear_arith)
        requires
            d * d > 0,
    ;
}

/// Computes `-b^-1 mod 2^32` for odd `b` by Newton iteration: every round
/// doubles the number of correct low bits.
pub fn inv_mod_alt(b: u32) -> (k: u32)
    requires
        b % 2 == 1,
    ensures
        is_monty_constant(b, k),
{
    let mut k0: u32 = 2u32.wrapping_sub(b);
    let mut t: u32 = b - 1;
    let mut i: u32 = 1;
    proof {
        assert(congruent(b * k0, 1 - t * t, word_base() as int)) by {
            let kk: int = 2 - b;
            assert(b * kk == 1 - t * t) by (nonlinear_arith)
                requires
                    kk == 2 - b,
                    t == b - 1,
            ;
            if b > 2 {
                assert(k0 == kk + 0x1_0000_0000);
                assert(b * k0 == b * kk + b * 0x1_0000_0000) by (nonlinear_arith)
                    requires
                        k0 == kk + 0x1_0000_0000,
                ;
                lemma_congruent_by_multiple(b * k0, b * kk, b as int, word_base() as int);
            } else {
                assert(k0 == kk);
            }
        }
    }
    while i < WORD_BITS
        invariant
            b % 2 == 1,
            (i == 1 && t % 2 == 0) || (i == 2 && t % 4 == 0) || (i == 4 && t % 16 == 0) || (i == 8
                && t % 256 == 0) || (i == 16 && t % 65536 == 0) || (i == 32 && t == 0),
            congruent(b * k0, 1 - t * t, word_base() as int),
        decreases 64 - i,
    {
        let t2: u32 = t.wrapping_mul(t);
        proof {
            if i == 1 {
                lemma_square_divisible(t as int, 2, 0x4000_0000, t2 as int);
            } else if i == 2 {
                lemma_square_divisible(t as int, 4, 0x1000_0000, t2 as int);
            } else if i == 4 {
                lemma_square_divisible(t as int, 16, 0x100_0000, t2 as int);
            } else if i == 8 {
                lemma_square_divisible(t as int, 256, 0x1_0000, t2 as int);
            } else {
                lemma_square_divisible(t as int, 65536, 1, t2 as int);
            }
        }
        let k1: u32 = k0.wrapping_mul(t2 + 1);
        proof {
            let bb = word_base() as int;
            // t2 ≡ t * t and k1 ≡ k0 * (t2 + 1) modulo 2^32
            assert(congruent(t2 as int, t * t, bb)) by {
                lemma_mod_twice(t * t, bb);
            }
            assert(congruent(k1 as int, k0 * (t2 + 1), bb)) by {
                lemma_mod_twice(k0 * (t2 + 1), bb);
            }
            // b * k1 ≡ (b * k0) * (t2 + 1) ≡ (1 - t * t) * (t2 + 1) ≡ (1 - t2) * (t2 + 1)
            lemma_congruent_mul(b as int, b as int, k1 as int, k0 * (t2 + 1), bb);
            assert(b * (k0 * (t2 + 1)) == (b * k0) * (t2 + 1)) by (nonlinear_arith);
            lemma_congruent_mul(b * k0, 1 - t * t, t2 + 1, t2 + 1, bb);
            lemma_congruent_mul(-1, -1, t * t, t2 as int, bb);
            assert(-1 * (t * t) == -(t * t));
            assert(-1 * (t2 as int) == -(t2 as int));
            lemma_congruent_add(1, 1, -(t * t), -(t2 as int), bb);
            lemma_congruent_mul(1 - t * t, 1 - t2, t2 + 1, t2 + 1, bb);
            assert((1 - t2) * (t2 + 1) == 1 - t2 * t2) by (nonlinear_arith);
        }
        t = t2;
        k0 = k1;
        let ghost round = i;
        i = i << 1;
        proof {
            assert(i == 2 * round) by (bit_vector)
                requires
                    round <= 16,
                    i == round << 1,
            ;
        }
    }
    let k: u32 = 0u32.wrapping_sub(k0);
    proof {
        let bb = word_base() as int;
        assert(t * t == 0);
        // b * k0 ≡ 1, and k = -k0 (mod 2^32)
        if k0 == 0 {
            assert(b * k0 == 0) by (nonlinear_arith)
                requires
                    k0 == 0,
            ;
            assert(false);
        }
        assert(k == 0x1_0000_0000 - k0);
        assert(b * k + 1 == (1 - b * k0) + b * 0x1_0000_0000) by (nonlinear_arith)
            requires
                k == 0x1_0000_0000 - k0,
        ;
        lemma_congruent_by_multiple(b * k + 1, 1 - b * k0, b as int, bb);
        lemma_congruent_mul(-1, -1, b * k0, 1, bb);
        assert(-1 * (b * k0) == -(b * k0));
        lemma_congruent_add(1, 1, -(b * k0), -1, bb);
    }
    k
}

/// The per-modulus constant of Montgomery reduction.
pub struct MontyReducer {
    pub n0inv: u32,
}

impl MontyReducer {
    /// Computes the Montgomery constant of an odd modulus.
    pub fn new(n: &U4096) -> (r: MontyReducer)
        requires
            n@ % 2 == 1,
        ensures
            is_monty_constant(n.limbs@[0], r.n0inv),
    {
        proof {
            lemma_limbs_value_parity(n.limbs@);
        }
        let n0inv = inv_mod_alt(n.limbs[0]);
        MontyReducer { n0inv }
    }
}

/// The number below `2^32` that a sequence is congruent to is its lowest word.
proof fn lemma_low_word_congruent(s: Seq<u32>)
    requires
        s.len() > 0,
    ensures
        congruent(limbs_value(s) as int, s[0] as int, word_base() as int),
{
    lemma_limbs_value_low_word(s);
    let rest = limbs_value(s.skip(1)) as int;
    assert(limbs_value(s) == s[0] + rest * word_base());
    lemma_congruent_by_multiple(limbs_value(s) as int, s[0] as int, rest, word_base() as int);
}

/// Adding the multiple `t * m` with `t = w * k` clears the lowest word.
proof fn lemma_low_word_cancels(
    w1: int,
    low: int,
    m: int,
    m0: int,
    k: int,
    t: int,
    w2: int,
    c3: int,
    r127: int,
)
    requires
        congruent(w1, low, 0x1_0000_0000),
        congruent(m, m0, 0x1_0000_0000),
        (m0 * k + 1) % 0x1_0000_0000 == 0,
        congruent(t, low * k, 0x1_0000_0000),
        w2 + c3 * (0x1_0000_0000 * r127) == w1 + m * t,
    ensures
        w2 % 0x1_0000_0000 == 0,
{
    let b: int = 0x1_0000_0000;
    // m * t ≡ m0 * (low * k)
    lemma_congruent_mul(m, m0, t, low * k, b);
    assert(m0 * (low * k) == low * (m0 * k)) by (nonlinear_arith);
    // w1 + m * t ≡ low + low * (m0 * k) = low * (m0 * k + 1) ≡ low * 0
    lemma_congruent_add(w1, low, m * t, low * (m0 * k), b);
    assert(low + low * (m0 * k) == low * (m0 * k + 1)) by (nonlinear_arith);
    lemma_congruent_mul(low, low, m0 * k + 1, 0, b);
    assert(low * 0 == 0);
    assert(w2 == (w1 + m * t) + (-(c3 * r127)) * b) by (nonlinear_arith)
        requires
            w2 + c3 * (b * r127) == w1 + m * t,
    ;
    lemma_congruent_by_multiple(w2, w1 + m * t, -(c3 * r127), b);
}

/// One round of the reduction, in integers: the accumulator gains `x * yi`
/// and `m * t`, loses its zero lowest word, and stays below `x + m`.
proof fn lemma_monty_round(
    v: int,
    w0: int,
    w2: int,
    rest: int,
    x: int,
    m: int,
    yi: int,
    t: int,
    c: int,
    c23: int,
    r127: int,
)
    requires
        r127 > 0,
        v == w0 + c * (0x1_0000_0000 * r127),
        w2 + c23 * (0x1_0000_0000 * r127) == w0 + x * yi + m * t,
        w2 == 0x1_0000_0000 * rest,
        v < x + m,
        0 <= yi < 0x1_0000_0000,
        0 <= t < 0x1_0000_0000,
        0 <= x,
        0 <= m,
    ensures
        0x1_0000_0000 * (rest + (c + c23) * r127) == v + x * yi + m * t,
        rest + (c + c23) * r127 < x + m,
{
    let b: int = 0x1_0000_0000;
    assert(b * (rest + (c + c23) * r127) == b * rest + c * (b * r127) + c23 * (b * r127))
        by (nonlinear_arith);
    assert(x * yi <= x * (b - 1)) by (nonlinear_arith)
        requires
            0 <= x,
            yi <= b - 1,
    ;
    assert(m * t <= m * (b - 1)) by (nonlinear_arith)
        requires
            0 <= m,
            t <= b - 1,
    ;
    assert(x * (b - 1) + m * (b - 1) + x + m == b * (x + m)) by (nonlinear_arith);
    let u = rest + (c + c23) * r127;
    assert(u < x + m) by (nonlinear_arith)
        requires
            b * u < b * (x + m),
            b > 0,
    ;
}

/// Adds `x * yi` into the window and then the multiple of `m` that clears its
/// lowest word. Returns the two carries and the multiplier used.
fn monty_round(window: &mut [u32], x: &[u32], yi: u32, m: &[u32], k: u32) -> (r: (u32, u32, u32))
    requires
        old(window)@.len() == 128,
        x@.len() == 128,
        m@.len() == 128,
        is_monty_constant(m@[0], k),
    ensures
        final(window)@.len() == 128,
        final(window)@[0] == 0,
        limbs_value(final(window)@) + (r.0 + r.1) * uint_range() == limbs_value(old(window)@)
            + limbs_value(x@) * yi + limbs_value(m@) * r.2,
{
    let c2 = add_mul_vvw(window, x, yi);
    let ghost w1 = window@;
    let low: u32 = window[0];
    let t: u32 = low.wrapping_mul(k);
    let c3 = add_mul_vvw(window, m, t);
    proof {
        let b = word_base() as int;
        let r = uint_range() as int;
        lemma_word_weight_step(127);
        let r127 = word_weight(127) as int;
        lemma_low_word_congruent(w1);
        lemma_low_word_congruent(m@);
        lemma_low_word_congruent(window@);
        assert(congruent(t as int, low * k, b)) by {
            lemma_mod_twice(low * k, b);
        }
        lemma_low_word_cancels(
            limbs_value(w1) as int,
            low as int,
            limbs_value(m@) as int,
            m@[0] as int,
            k as int,
            t as int,
            limbs_value(window@) as int,
            c3 as int,
            r127,
        );
        assert((c2 + c3) * r == c2 * r + c3 * r) by (nonlinear_arith);
    }
    (c2, c3, t)
}

/// Copies 128 words starting at `from`.
fn copy_words(src: &[u32], from: usize) -> (r: [u32; 128])
    requires
        from + 128 <= src@.len(),
    ensures
        r@ == src@.subrange(from as int, from + 128),
{
    let mut out = [0u32; 128];
    let len: usize = src.len();
    let mut j: usize = 0;
    while j < 128
        invariant
            j <= 128,
            len == src@.len(),
            from + 128 <= len,
            forall|n: int| 0 <= n < j ==> out@[n] == src@[from + n],
        decreases 128 - j,
    {
        out[j] = src[from + j];
        j = j + 1;
    }
    proof {
        assert(out@ =~= src@.subrange(from as int, from + 128));
    }
    out
}

/// `z` is a Montgomery product of `x` and `y` modulo `m`:
/// `z * 2^4096 ≡ x * y (mod m)`.
pub open spec fn is_monty_product(z: nat, x: nat, y: nat, m: nat) -> bool {
    congruent((z * uint_range()) as int, (x * y) as int, m as int)
}

/// `q` and `t` show how `z` arises from `x * y`: `q < 2^4096` is the multiple
/// of `m` that makes `x * y + q * m` divisible by `2^4096`, `t` is the
/// quotient, and `z` is `t`, less `m` where `t` does not fit in 4096 bits.
pub open spec fn monty_witness(z: nat, x: nat, y: nat, m: nat, q: nat, t: nat) -> bool {
    &&& q < uint_range()
    &&& t * uint_range() == x * y + q * m
    &&& z == if t < uint_range() {
        t
    } else {
        (t - m) as nat
    }
}

/// `z` is the almost-Montgomery product of `x` and `y` modulo `m`.
pub open spec fn is_almost_monty_product(z: nat, x: nat, y: nat, m: nat) -> bool {
    exists|q: nat, t: nat| monty_witness(z, x, y, m, q, t)
}

/// A power of two that divides `d * m` for odd `m` divides `d`.
proof fn lemma_pow2_divides_odd_multiple(d: int, m: int, k: nat)
    requires
        m % 2 == 1,
        (d * m) % (pow2(k) as int) == 0,
    ensures
        d % (pow2(k) as int) == 0,
    decreases k,
{
    lemma_pow2_pos(k);
    if k == 0 {
        lemma2_to64();
    } else {
        lemma_pow2_unfold(k);
        let p = pow2((k - 1) as nat) as int;
        lemma_pow2_pos((k - 1) as nat);
        lemma_fundamental_div_mod(d * m, 2 * p);
        let j = (d * m) / (2 * p);
        assert(d * m == 2 * (p * j)) by (nonlinear_arith)
            requires
                d * m == (2 * p) * j,
        ;
        // d is even, as m is odd and d * m is even
        let mh = m / 2;
        assert(m == 2 * mh + 1);
        assert(d * m == 2 * (d * mh) + d) by (nonlinear_arith)
            requires
                m == 2 * mh + 1,
        ;
        assert(d % 2 == 0);
        let dh = d / 2;
        assert(d == 2 * dh);
        assert(d * m == 2 * (dh * m)) by (nonlinear_arith)
            requires
                d == 2 * dh,
        ;
        assert(dh * m == p * j);
        assert(dh * m == 0 + j * p) by (nonlinear_arith)
            requires
                dh * m == p * j,
        ;
        lemma_congruent_by_multiple(dh * m, 0, j, p);
        assert(0int % p == 0) by (nonlinear_arith)
            requires
                p > 0,
        ;
        lemma_pow2_divides_odd_multiple(dh, m, (k - 1) as nat);
        lemma_fundamental_div_mod(dh, p);
        let i = dh / p;
        assert(d == 0 + i * (2 * p)) by (nonlinear_arith)
            requires
                d == 2 * dh,
                dh == p * i,
        ;
        lemma_congruent_by_multiple(d, 0, i, 2 * p);
        assert(0int % (2 * p) == 0) by (nonlinear_arith)
            requires
                p > 0,
        ;
    }
}

/// For an odd modulus the almost-Montgomery product is unique.
pub proof fn lemma_almost_monty_product_unique(z1: nat, z2: nat, x: nat, y: nat, m: nat)
    requires
        m % 2 == 1,
        is_almost_monty_product(z1, x, y, m),
        is_almost_monty_product(z2, x, y, m),
    ensures
        z1 == z2,
{
    let (q1, t1) = choose|q: nat, t: nat| monty_witness(z1, x, y, m, q, t);
    let (q2, t2) = choose|q: nat, t: nat| monty_witness(z2, x, y, m, q, t);
    let r = uint_range() as int;
    let d = q1 - q2;
    lemma_word_weight_step(128);
    assert(d * m == (t1 - t2) * r) by (nonlinear_arith)
        requires
            t1 * r == x * y + q1 * m,
            t2 * r == x * y + q2 * m,
            d == q1 - q2,
    ;
    assert(d * m == 0 + (t1 - t2) * r);
    lemma_congruent_by_multiple(d * m, 0, t1 - t2, r);
    assert(0int % r == 0) by (nonlinear_arith)
        requires
            r > 0,
    ;
    lemma_pow2_divides_odd_multiple(d, m as int, 4096);
    lemma_fundamental_div_mod(d, r);
    let i = d / r;
    assert(d == r * i);
    assert(i == 0) by (nonlinear_arith)
        requires
            d == r * i,
            -r < d < r,
            r > 0,
    ;
    assert(q1 == q2);
    assert(t1 == t2) by (nonlinear_arith)
        requires
            t1 * r == t2 * r,
            r > 0,
    ;
}

/// An almost-Montgomery product is a Montgomery product below `2^4096`.
pub proof fn lemma_almost_monty_product_congruent(z: nat, x: nat, y: nat, m: nat)
    requires
        0 < m < uint_range(),
        is_almost_monty_product(z, x, y, m),
    ensures
        is_monty_product(z, x, y, m),
{
    let (q, t) = choose|q: nat, t: nat| monty_witness(z, x, y, m, q, t);
    let r = uint_range() as int;
    if t < r {
        lemma_congruent_by_multiple(z * r, (x * y) as int, q as int, m as int);
    } else {
        lemma_word_weight_step(128);
        assert(z * r == (x * y) + (q - r) * m) by (nonlinear_arith)
            requires
                t * r == x * y + q * m,
                z == t - m,
        ;
        lemma_congruent_by_multiple(z * r, (x * y) as int, q - r, m as int);
    }
}

/// Almost-Montgomery multiplication: returns `z < 2^4096` with
/// `z * 2^4096 ≡ x * y (mod m)`, for the constant `k` of the modulus `m`.
///
/// The result may still be `m` or more.
pub fn montgomery(x: &U4096, y: &U4096, m: &U4096, k: u32) -> (z: U4096)
    requires
        is_monty_constant(m.limbs@[0], k),
    ensures
        is_almost_monty_product(z@, x@, y@, m@),
        is_monty_product(z@, x@, y@, m@),
{
    let mut z = [0u32; 256];
    let mut c: u32 = 0;
    let ghost mut q: int = 0;
    let mut i: usize = 0;
    proof {
        lemma_monty_constant_odd(m.limbs@[0], k);
        lemma_limbs_value_parity(m.limbs@);
        lemma_limbs_value_zero(z@.subrange(0, 128));
        assert(y.limbs@.take(0) =~= Seq::<u32>::empty());
        assert(limbs_value(Seq::<u32>::empty()) == 0);
        lemma_word_weight_step(0);
        assert(x@ * 0 == 0) by (nonlinear_arith);
        assert(0 * uint_range() == 0) by (nonlinear_arith);
        assert(0 * m@ == 0) by (nonlinear_arith);
    }
    while i < 128
        invariant
            i <= 128,
            c <= 1,
            m@ > 0,
            is_monty_constant(m.limbs@[0], k),
            0 <= q < word_weight(i as nat),
            (limbs_value(z@.subrange(i as int, i + 128)) + c * uint_range()) * word_weight(
                i as nat,
            ) == x@ * limbs_value(y.limbs@.take(i as int)) + q * m@,
            limbs_value(z@.subrange(i as int, i + 128)) + c * uint_range() < x@ + m@,
        decreases 128 - i,
    {
        let ghost before = z@;
        let yi: u32 = y.limbs[i];
        let (_, upper) = z.split_at_mut(i);
        let (window, _) = upper.split_at_mut(128);
        let ghost w0 = window@;
        let (c2, c3, t) = monty_round(window, x.limbs.as_slice(), yi, m.limbs.as_slice(), k);
        let ghost w2 = window@;
        proof {
            assert(w0 =~= before.subrange(i as int, i + 128));
            assert(z@ =~= before.take(i as int) + w2 + before.skip(i + 128));
        }
        let cx: u32 = c.wrapping_add(c2);
        let cy: u32 = cx.wrapping_add(c3);
        let ghost r127 = word_weight(127) as int;
        let ghost rest = limbs_value(w2.skip(1)) as int;
        let ghost v = limbs_value(w0) + c * uint_range();
        proof {
            lemma_word_weight_step(127);
            lemma_u4096_bound(*x);
            lemma_u4096_bound(*m);
            lemma_limbs_value_low_word(w2);
            assert((c2 + c3) * uint_range() == (c2 + c3) * (0x1_0000_0000 * r127));
            lemma_monty_round(
                v,
                limbs_value(w0) as int,
                limbs_value(w2) as int,
                rest,
                x@ as int,
                m@ as int,
                yi as int,
                t as int,
                c as int,
                c2 + c3,
                r127,
            );
            let s = c + c2 + c3;
            assert(s < 2 * 0x1_0000_0000) by (nonlinear_arith)
                requires
                    rest + s * r127 < x@ + m@,
                    x@ < 0x1_0000_0000 * r127,
                    m@ < 0x1_0000_0000 * r127,
                    rest >= 0,
                    r127 > 0,
            ;
        }
        z[128 + i] = cy;
        let carry: u32 = if cx < c2 || cy < c3 {
            1
        } else {
            0
        };
        proof {
            let s = c + c2 + c3;
            let b = word_base() as int;
            let p = word_weight(i as nat) as int;
            assert(cy + carry * b == s);
            let next = z@.subrange(i + 1, i + 129);
            assert(next =~= w2.skip(1).push(cy));
            lemma_limbs_value_push(w2.skip(1), cy);
            let vn = limbs_value(next) + carry * uint_range();
            assert(vn == rest + s * r127) by (nonlinear_arith)
                requires
                    vn == rest + cy * r127 + carry * (b * r127),
                    cy + carry * b == s,
            ;
            lemma_word_weight_step(i as nat);
            lemma_limbs_value_take_step(y.limbs@, i as int);
            let yp = limbs_value(y.limbs@.take(i as int)) as int;
            let xv = x@ as int;
            let mv = m@ as int;
            let grown = v + xv * yi + mv * t;
            assert(vn * (p * b) == (b * vn) * p) by (nonlinear_arith);
            assert(grown * p == v * p + xv * (yi * p) + (t * p) * mv) by (nonlinear_arith)
                requires
                    grown == v + xv * yi + mv * t,
            ;
            assert(xv * yp + xv * (yi * p) == xv * (yp + yi * p)) by (nonlinear_arith);
            assert(q * mv + (t * p) * mv == (q + t * p) * mv) by (nonlinear_arith);
            assert(0 <= q + t * p < p * b) by (nonlinear_arith)
                requires
                    0 <= q < p,
                    0 <= t <= b - 1,
            ;
            q = q + t * p;
        }
        c = carry;
        i = i + 1;
    }
    let hi = copy_words(z.as_slice(), 128);
    proof {
        assert(y.limbs@.take(128) =~= y.limbs@);
        lemma_u4096_bound(*x);
        lemma_u4096_bound(*m);
    }
    if c == 0 {
        let r = U4096 { limbs: hi };
        proof {
            let rr = uint_range() as int;
            assert(0 * rr == 0) by (nonlinear_arith);
            lemma_congruent_by_multiple(r@ * rr, (x@ * y@) as int, q, m@ as int);
            lemma_u4096_bound(r);
            assert(monty_witness(r@, x@, y@, m@, q as nat, r@));
        }
        r
    } else {
        let mut out = U4096 { limbs: [0u32; 128] };
        let borrow = sub_vv(&mut out.limbs, hi.as_slice(), m.limbs.as_slice());
        proof {
            let rr = uint_range() as int;
            let h = limbs_value(hi@) as int;
            let mv = m@ as int;
            lemma_limbs_value_bound(out.limbs@);
            assert(1 * rr == rr) by (nonlinear_arith);
            assert(borrow == 1) by {
                if borrow == 0 {
                    assert(0 * rr == 0) by (nonlinear_arith);
                }
            }
            assert(out@ == h + rr - mv);
            assert(out@ * rr == (x@ * y@) + (q - rr) * mv) by (nonlinear_arith)
                requires
                    (h + rr) * rr == x@ * y@ + q * mv,
                    out@ == h + rr - mv,
            ;
            lemma_congruent_by_multiple(out@ * rr, (x@ * y@) as int, q - rr, mv);
            assert(monty_witness(out@, x@, y@, m@, q as nat, (h + rr) as nat));
        }
        out
    }
}

} // verus!
