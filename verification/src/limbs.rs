//! Multi-word unsigned integers stored as little-endian sequences of 32-bit
//! words, with the carry-propagating vector operations on them.

use vstd::prelude::*;
use vstd::arithmetic::power2::{pow2, lemma_pow2_adds, lemma_pow2_pos, lemma2_to64};
use crate::word::{add_ww, mul_add_www, word_base};

verus! {

/// The number that a little-endian word sequence stands for:
/// `s[0] + s[1] * 2^32 + s[2] * 2^64 + ...`.
pub open spec fn limbs_value(s: Seq<u32>) -> nat
    decreases s.len(),
{
    if s.len() == 0 {
        0
    } else {
        limbs_value(s.drop_last()) + (s.last() as nat) * pow2((32 * (s.len() - 1)) as nat)
    }
}

/// `2^(32 * n)`, the weight of word `n`.
pub open spec fn word_weight(n: nat) -> nat {
    pow2(32 * n)
}

/// The weight of the next word is `2^32` times the weight of this one.
pub proof fn lemma_word_weight_step(n: nat)
    ensures
        word_weight(n + 1) == word_weight(n) * word_base(),
        word_weight(n) > 0,
        word_weight(0) == 1,
        word_weight(1) == word_base(),
{
    lemma_pow2_adds(32 * n, 32);
    lemma2_to64();
    lemma_pow2_pos(32 * n);
}

/// Weights multiply as positions add.
pub proof fn lemma_word_weight_adds(a: nat, b: nat)
    ensures
        word_weight(a + b) == word_weight(a) * word_weight(b),
        word_weight(a) > 0,
        word_weight(b) > 0,
{
    lemma_pow2_adds(32 * a, 32 * b);
    lemma_pow2_pos(32 * a);
    lemma_pow2_pos(32 * b);
}

/// A sequence of `n` words stands for a number below `2^(32 n)`.
pub proof fn lemma_limbs_value_bound(s: Seq<u32>)
    ensures
        limbs_value(s) < word_weight(s.len()),
    decreases s.len(),
{
    if s.len() == 0 {
        lemma_word_weight_step(0);
    } else {
        let n = (s.len() - 1) as nat;
        lemma_limbs_value_bound(s.drop_last());
        lemma_word_weight_step(n);
        let p = word_weight(n) as int;
        let w = s.last() as int;
        assert(w * p <= 0xffff_ffff * p) by (nonlinear_arith)
            requires
                0 <= w <= 0xffff_ffff,
                p > 0,
        ;
    }
}

/// Appending a word adds it with the weight of its position.
pub proof fn lemma_limbs_value_push(s: Seq<u32>, w: u32)
    ensures
        limbs_value(s.push(w)) == limbs_value(s) + w * word_weight(s.len()),
{
    assert(s.push(w).drop_last() =~= s);
}

/// The value of a prefix grows by the next word times its weight.
pub proof fn lemma_limbs_value_take_step(s: Seq<u32>, i: int)
    requires
        0 <= i < s.len(),
    ensures
        limbs_value(s.take(i + 1)) == limbs_value(s.take(i)) + s[i] * word_weight(i as nat),
{
    assert(s.take(i + 1).drop_last() =~= s.take(i));
}

/// The value of a concatenation.
pub proof fn lemma_limbs_value_concat(a: Seq<u32>, b: Seq<u32>)
    ensures
        limbs_value(a + b) == limbs_value(a) + word_weight(a.len()) * limbs_value(b),
    decreases b.len(),
{
    if b.len() == 0 {
        assert(a + b =~= a);
        assert(limbs_value(b) == 0);
        assert(word_weight(a.len()) * 0 == 0) by (nonlinear_arith);
    } else {
        let b0 = b.drop_last();
        assert((a + b).drop_last() =~= a + b0);
        lemma_limbs_value_concat(a, b0);
        lemma_word_weight_adds(a.len(), b0.len());
        let pa = word_weight(a.len()) as int;
        let pb = word_weight(b0.len()) as int;
        let vb0 = limbs_value(b0) as int;
        let w = b.last() as int;
        assert((a + b).last() == b.last());
        assert((a + b).len() - 1 == a.len() + b0.len());
        assert(limbs_value(a + b) == limbs_value(a + b0) + w * (pa * pb));
        assert(limbs_value(b) == vb0 + w * pb);
        assert(pa * (vb0 + w * pb) == pa * vb0 + w * (pa * pb)) by (nonlinear_arith);
        assert(pa * limbs_value(b) == pa * (vb0 + w * pb));
    }
}

/// A sequence splits at any position into a low part and a weighted high part.
pub proof fn lemma_limbs_value_split(s: Seq<u32>, i: int)
    requires
        0 <= i <= s.len(),
    ensures
        limbs_value(s) == limbs_value(s.take(i)) + word_weight(i as nat) * limbs_value(s.skip(i)),
{
    assert(s =~= s.take(i) + s.skip(i));
    lemma_limbs_value_concat(s.take(i), s.skip(i));
}

/// The lowest word splits off: `value(s) == s[0] + 2^32 * value(s[1..])`.
pub proof fn lemma_limbs_value_low_word(s: Seq<u32>)
    requires
        s.len() > 0,
    ensures
        limbs_value(s) == s[0] + word_base() * limbs_value(s.skip(1)),
{
    lemma_limbs_value_split(s, 1);
    lemma_limbs_value_take_step(s, 0);
    lemma_word_weight_step(0);
    assert(s.take(0) =~= Seq::<u32>::empty());
    assert(limbs_value(Seq::<u32>::empty()) == 0);
    let weight0 = word_weight(0) as int;
    let weight1 = word_weight(1) as int;
    let w = s[0] as int;
    let v = limbs_value(s.skip(1)) as int;
    assert(w * weight0 == w) by (nonlinear_arith)
        requires
            weight0 == 1,
    ;
    assert(weight1 * v == word_base() * v);
}

/// A sequence stands for zero exactly when all of its words are zero.
pub proof fn lemma_limbs_value_zero(s: Seq<u32>)
    ensures
        limbs_value(s) == 0 <==> (forall|i: int| 0 <= i < s.len() ==> s[i] == 0),
    decreases s.len(),
{
    if s.len() > 0 {
        let n = (s.len() - 1) as nat;
        lemma_limbs_value_zero(s.drop_last());
        lemma_word_weight_step(n);
        let p = word_weight(n) as int;
        let w = s.last() as int;
        assert(w > 0 ==> w * p > 0) by (nonlinear_arith)
            requires
                p > 0,
        ;
        assert(w == 0 ==> w * p == 0) by (nonlinear_arith);
        if limbs_value(s) == 0 {
            assert forall|i: int| 0 <= i < s.len() implies s[i] == 0 by {
                if i < s.len() - 1 {
                    assert(s.drop_last()[i] == s[i]);
                }
            }
        } else {
            if forall|i: int| 0 <= i < s.len() ==> s[i] == 0 {
                assert forall|i: int| 0 <= i < s.drop_last().len() implies s.drop_last()[i]
                    == 0 by {
                    assert(s.drop_last()[i] == s[i]);
                }
            }
        }
    }
}

/// Sequences of one length that stand for the same number are equal.
pub proof fn lemma_limbs_value_injective(a: Seq<u32>, b: Seq<u32>)
    requires
        a.len() == b.len(),
        limbs_value(a) == limbs_value(b),
    ensures
        a == b,
    decreases a.len(),
{
    if a.len() == 0 {
        assert(a =~= b);
    } else {
        let n = (a.len() - 1) as nat;
        lemma_limbs_value_bound(a.drop_last());
        lemma_limbs_value_bound(b.drop_last());
        lemma_word_weight_step(n);
        let p = word_weight(n) as int;
        let va = limbs_value(a.drop_last()) as int;
        let vb = limbs_value(b.drop_last()) as int;
        let wa = a.last() as int;
        let wb = b.last() as int;
        assert(wa == wb) by (nonlinear_arith)
            requires
                va + wa * p == vb + wb * p,
                0 <= va < p,
                0 <= vb < p,
        ;
        assert(wa * p == wb * p);
        lemma_limbs_value_injective(a.drop_last(), b.drop_last());
        assert(a =~= a.drop_last().push(a.last()));
        assert(b =~= b.drop_last().push(b.last()));
    }
}

/// Adds `x * y` into `z` in place and returns the carry word:
/// `z' + carry * 2^(32 n) == z + x * y` for operands of `n` words.
pub fn add_mul_vvw(z: &mut [u32], x: &[u32], y: u32) -> (c: u32)
    requires
        old(z)@.len() == x@.len(),
    ensures
        final(z)@.len() == old(z)@.len(),
        limbs_value(final(z)@) + c * word_weight(x@.len()) == limbs_value(old(z)@) + limbs_value(
            x@,
        ) * y,
{
    let n: usize = x.len();
    let mut c: u32 = 0;
    let mut i: usize = 0;
    proof {
        lemma_word_weight_step(0);
        assert(z@.take(0) =~= Seq::<u32>::empty());
        assert(x@.take(0) =~= Seq::<u32>::empty());
        assert(limbs_value(Seq::<u32>::empty()) == 0);
    }
    while i < n
        invariant
            i <= n,
            n == x@.len(),
            z@.len() == n,
            old(z)@.len() == n,
            forall|k: int| i <= k < n ==> z@[k] == old(z)@[k],
            limbs_value(z@.take(i as int)) + c * word_weight(i as nat) == limbs_value(
                old(z)@.take(i as int),
            ) + limbs_value(x@.take(i as int)) * y,
        decreases n - i,
    {
        let ghost before = z@;
        let zi: u32 = z[i];
        let xi: u32 = x[i];
        let (z1, z0) = mul_add_www(xi, y, zi);
        let (c1, lo) = add_ww(z0, c, 0);
        z[i] = lo;
        proof {
            let p = word_weight(i as nat) as int;
            let b = word_base() as int;
            lemma_word_weight_step(i as nat);
            lemma_limbs_value_take_step(z@, i as int);
            lemma_limbs_value_take_step(old(z)@, i as int);
            lemma_limbs_value_take_step(x@, i as int);
            assert(z@.take(i as int) =~= before.take(i as int));
            let vz = limbs_value(before.take(i as int)) as int;
            let vo = limbs_value(old(z)@.take(i as int)) as int;
            let vx = limbs_value(x@.take(i as int)) as int;
            assert((z1 + c1) * b + lo == xi * y + zi + c);
            assert(xi * y + zi + c <= 0xffff_ffff * 0xffff_ffff + 2 * 0xffff_ffff)
                by (nonlinear_arith)
                requires
                    0 <= xi <= 0xffff_ffff,
                    0 <= y <= 0xffff_ffff,
                    0 <= zi <= 0xffff_ffff,
                    0 <= c <= 0xffff_ffff,
            ;
            assert(vz + lo * p + (z1 + c1) * (p * b) == (vo + zi * p) + (vx + xi * p) * y)
                by (nonlinear_arith)
                requires
                    vz + c * p == vo + vx * y,
                    (z1 + c1) * b + lo == xi * y + zi + c,
            ;
        }
        c = c1 + z1;
        i = i + 1;
    }
    proof {
        assert(z@.take(n as int) =~= z@);
        assert(old(z)@.take(n as int) =~= old(z)@);
        assert(x@.take(n as int) =~= x@);
    }
    c
}

/// Subtracts `y` from `x` into `z` and returns the borrow, 0 or 1:
/// `z + y == x + borrow * 2^(32 n)` for operands of `n` words.
pub fn sub_vv(z: &mut [u32], x: &[u32], y: &[u32]) -> (c: u32)
    requires
        old(z)@.len() == x@.len(),
        x@.len() == y@.len(),
    ensures
        final(z)@.len() == old(z)@.len(),
        c <= 1,
        limbs_value(final(z)@) + limbs_value(y@) == limbs_value(x@) + c * word_weight(x@.len()),
{
    let n: usize = x.len();
    let mut c: u32 = 0;
    let mut i: usize = 0;
    proof {
        lemma_word_weight_step(0);
        assert(z@.take(0) =~= Seq::<u32>::empty());
        assert(x@.take(0) =~= Seq::<u32>::empty());
        assert(y@.take(0) =~= Seq::<u32>::empty());
        assert(limbs_value(Seq::<u32>::empty()) == 0);
    }
    while i < n
        invariant
            i <= n,
            n == x@.len(),
            n == y@.len(),
            z@.len() == n,
            c <= 1,
            limbs_value(z@.take(i as int)) + limbs_value(y@.take(i as int)) == limbs_value(
                x@.take(i as int),
            ) + c * word_weight(i as nat),
        decreases n - i,
    {
        let ghost before = z@;
        let xi: u32 = x[i];
        let yi: u32 = y[i];
        let zi: u32 = xi.wrapping_sub(yi).wrapping_sub(c);
        z[i] = zi;
        let borrow: u32 = ((yi & !xi) | ((yi | !xi) & zi)) >> 31;
        proof {
            assert(zi == (xi as u64 + 0x2_0000_0000 - yi as u64 - c as u64) % 0x1_0000_0000);
            assert(borrow == (if (xi as u64) < (yi as u64) + (c as u64) {
                1u32
            } else {
                0u32
            })) by (bit_vector)
                requires
                    c <= 1,
                    borrow == ((yi & !xi) | ((yi | !xi) & zi)) >> 31,
                    zi == (xi as u64 + 0x2_0000_0000 - yi as u64 - c as u64) % 0x1_0000_0000,
            ;
            let p = word_weight(i as nat) as int;
            let b = word_base() as int;
            lemma_word_weight_step(i as nat);
            lemma_limbs_value_take_step(z@, i as int);
            lemma_limbs_value_take_step(x@, i as int);
            lemma_limbs_value_take_step(y@, i as int);
            assert(z@.take(i as int) =~= before.take(i as int));
            let vz = limbs_value(before.take(i as int)) as int;
            let vx = limbs_value(x@.take(i as int)) as int;
            let vy = limbs_value(y@.take(i as int)) as int;
            assert(zi + yi + c == xi + borrow * b);
            assert((vz + zi * p) + (vy + yi * p) == (vx + xi * p) + borrow * (p * b))
                by (nonlinear_arith)
                requires
                    vz + vy == vx + c * p,
                    zi + yi + c == xi + borrow * b,
            ;
        }
        c = borrow;
        i = i + 1;
    }
    proof {
        assert(z@.take(n as int) =~= z@);
        assert(x@.take(n as int) =~= x@);
        assert(y@.take(n as int) =~= y@);
    }
    c
}

/// Doubles `z` in place and returns the bit shifted out at the top:
/// `z' + carry * 2^(32 n) == 2 * z`.
pub fn double_v(z: &mut [u32]) -> (c: u32)
    ensures
        final(z)@.len() == old(z)@.len(),
        c <= 1,
        limbs_value(final(z)@) + c * word_weight(old(z)@.len()) == 2 * limbs_value(old(z)@),
{
    let n: usize = z.len();
    let mut c: u32 = 0;
    let mut i: usize = 0;
    proof {
        lemma_word_weight_step(0);
        assert(z@.take(0) =~= Seq::<u32>::empty());
        assert(limbs_value(Seq::<u32>::empty()) == 0);
    }
    while i < n
        invariant
            i <= n,
            z@.len() == n,
            old(z)@.len() == n,
            c <= 1,
            forall|k: int| i <= k < n ==> z@[k] == old(z)@[k],
            limbs_value(z@.take(i as int)) + c * word_weight(i as nat) == 2 * limbs_value(
                old(z)@.take(i as int),
            ),
        decreases n - i,
    {
        let ghost before = z@;
        let w: u32 = z[i];
        let lo: u32 = (w << 1) | c;
        let top: u32 = w >> 31;
        z[i] = lo;
        proof {
            assert(top <= 1 && (lo as u64) + (top as u64) * 0x1_0000_0000u64 == 2 * (w as u64)
                + (c as u64)) by (bit_vector)
                requires
                    c <= 1,
                    lo == (w << 1) | c,
                    top == w >> 31,
            ;
            let p = word_weight(i as nat) as int;
            let b = word_base() as int;
            lemma_word_weight_step(i as nat);
            lemma_limbs_value_take_step(z@, i as int);
            lemma_limbs_value_take_step(old(z)@, i as int);
            assert(z@.take(i as int) =~= before.take(i as int));
            let vz = limbs_value(before.take(i as int)) as int;
            let vo = limbs_value(old(z)@.take(i as int)) as int;
            assert((vz + lo * p) + top * (p * b) == 2 * (vo + w * p)) by (nonlinear_arith)
                requires
                    vz + c * p == 2 * vo,
                    lo + top * b == 2 * w + c,
            ;
        }
        c = top;
        i = i + 1;
    }
    proof {
        assert(z@.take(n as int) =~= z@);
        assert(old(z)@.take(n as int) =~= old(z)@);
    }
    c
}

/// Two sequences that agree above position `i` compare as their words at `i` do.
pub proof fn lemma_limbs_value_differs(x: Seq<u32>, y: Seq<u32>, i: int)
    requires
        x.len() == y.len(),
        0 <= i < x.len(),
        forall|k: int| i < k < x.len() ==> x[k] == y[k],
        x[i] > y[i],
    ensures
        limbs_value(x) > limbs_value(y),
{
    lemma_limbs_value_split(x, i);
    lemma_limbs_value_split(y, i);
    lemma_limbs_value_low_word(x.skip(i));
    lemma_limbs_value_low_word(y.skip(i));
    assert(x.skip(i).skip(1) =~= y.skip(i).skip(1));
    lemma_limbs_value_bound(x.take(i));
    lemma_limbs_value_bound(y.take(i));
    lemma_word_weight_step(i as nat);
    let p = word_weight(i as nat) as int;
    let hx = limbs_value(x.skip(i)) as int;
    let hy = limbs_value(y.skip(i)) as int;
    assert(hx >= hy + 1);
    assert(p * hx >= p * hy + p) by (nonlinear_arith)
        requires
            hx >= hy + 1,
            p > 0,
    ;
}

/// Tells whether `x >= y` as numbers.
pub fn ge_vv(x: &[u32], y: &[u32]) -> (r: bool)
    requires
        x@.len() == y@.len(),
    ensures
        r == (limbs_value(x@) >= limbs_value(y@)),
{
    let mut i: usize = x.len();
    while i > 0
        invariant
            i <= x@.len(),
            x@.len() == y@.len(),
            forall|k: int| i <= k < x@.len() ==> x@[k] == y@[k],
        decreases i,
    {
        i = i - 1;
        let xi: u32 = x[i];
        let yi: u32 = y[i];
        if xi != yi {
            proof {
                if xi > yi {
                    lemma_limbs_value_differs(x@, y@, i as int);
                } else {
                    lemma_limbs_value_differs(y@, x@, i as int);
                }
            }
            return xi > yi;
        }
    }
    proof {
        assert(x@ =~= y@);
    }
    true
}

/// Tells whether `x` stands for zero.
pub fn is_zero_v(x: &[u32]) -> (r: bool)
    ensures
        r == (limbs_value(x@) == 0),
{
    let mut i: usize = 0;
    proof {
        lemma_limbs_value_zero(x@);
    }
    while i < x.len()
        invariant
            i <= x@.len(),
            forall|k: int| 0 <= k < i ==> x@[k] == 0,
            limbs_value(x@) == 0 <==> (forall|k: int| 0 <= k < x@.len() ==> x@[k] == 0),
        decreases x@.len() - i,
    {
        if x[i] != 0 {
            return false;
        }
        i = i + 1;
    }
    true
}

/// The parity of a number is the parity of its lowest word.
pub proof fn lemma_limbs_value_parity(s: Seq<u32>)
    requires
        s.len() > 0,
    ensures
        limbs_value(s) % 2 == s[0] % 2,
{
    lemma_limbs_value_low_word(s);
    let v = limbs_value(s.skip(1)) as int;
    assert(word_base() * v == 2 * (0x8000_0000 * v)) by (nonlinear_arith);
}

} // verus!
