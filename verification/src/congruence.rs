//! Facts about congruences that the Montgomery arithmetic rests on.

use vstd::prelude::*;
use vstd::arithmetic::div_mod::{
    lemma_mod_multiples_vanish,
    lemma_mul_mod_noop_general,
    lemma_add_mod_noop,
};
use vstd::arithmetic::power2::{pow2, lemma_pow2_unfold, lemma2_to64};

verus! {

/// `a` and `b` leave the same remainder modulo `m`.
pub open spec fn congruent(a: int, b: int, m: int) -> bool {
    a % m == b % m
}

/// Numbers that differ by a multiple of `m` are congruent.
pub proof fn lemma_congruent_by_multiple(a: int, b: int, k: int, m: int)
    requires
        m > 0,
        a == b + k * m,
    ensures
        congruent(a, b, m),
{
    lemma_mod_multiples_vanish(k, b, m);
    assert(m * k + b == a) by (nonlinear_arith)
        requires
            a == b + k * m,
    ;
}

/// Products of congruent factors are congruent.
pub proof fn lemma_congruent_mul(a: int, a2: int, b: int, b2: int, m: int)
    requires
        m > 0,
        congruent(a, a2, m),
        congruent(b, b2, m),
    ensures
        congruent(a * b, a2 * b2, m),
{
    lemma_mul_mod_noop_general(a, b, m);
    lemma_mul_mod_noop_general(a2, b2, m);
}

/// Sums of congruent terms are congruent.
pub proof fn lemma_congruent_add(a: int, a2: int, b: int, b2: int, m: int)
    requires
        m > 0,
        congruent(a, a2, m),
        congruent(b, b2, m),
    ensures
        congruent(a + b, a2 + b2, m),
{
    lemma_add_mod_noop(a, b, m);
    lemma_add_mod_noop(a2, b2, m);
}

/// Modulo an odd number a factor 2 cancels.
pub proof fn lemma_cancel_two(u: int, v: int, m: int)
    requires
        m > 0,
        m % 2 == 1,
        congruent(2 * u, 2 * v, m),
    ensures
        congruent(u, v, m),
{
    let h = (m + 1) / 2;
    assert(2 * h == m + 1);
    lemma_congruent_mul(h, h, 2 * u, 2 * v, m);
    assert(h * (2 * u) == u + u * m) by (nonlinear_arith)
        requires
            2 * h == m + 1,
    ;
    assert(h * (2 * v) == v + v * m) by (nonlinear_arith)
        requires
            2 * h == m + 1,
    ;
    lemma_congruent_by_multiple(h * (2 * u), u, u, m);
    lemma_congruent_by_multiple(h * (2 * v), v, v, m);
}

/// Modulo an odd number a power of two cancels.
pub proof fn lemma_cancel_pow2(u: int, v: int, k: nat, m: int)
    requires
        m > 0,
        m % 2 == 1,
        congruent(pow2(k) * u, pow2(k) * v, m),
    ensures
        congruent(u, v, m),
    decreases k,
{
    if k == 0 {
        lemma2_to64();
        assert(pow2(0) * u == u) by (nonlinear_arith)
            requires
                pow2(0) == 1,
        ;
        assert(pow2(0) * v == v) by (nonlinear_arith)
            requires
                pow2(0) == 1,
        ;
    } else {
        lemma_pow2_unfold(k);
        let p = pow2((k - 1) as nat) as int;
        assert(pow2(k) * u == 2 * (p * u)) by (nonlinear_arith)
            requires
                pow2(k) == 2 * p,
        ;
        assert(pow2(k) * v == 2 * (p * v)) by (nonlinear_arith)
            requires
                pow2(k) == 2 * p,
        ;
        lemma_cancel_two(p * u, p * v, m);
        lemma_cancel_pow2(u, v, (k - 1) as nat, m);
    }
}

} // verus!
