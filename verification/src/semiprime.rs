//! The totient of a product of two distinct primes: counting the residues
//! that neither prime divides gives `(p - 1) * (q - 1)`.

use vstd::prelude::*;
use vstd::arithmetic::div_mod::{lemma_fundamental_div_mod, lemma_fundamental_div_mod_converse};
use crate::divisibility::{
    divides, is_prime, lemma_divides_cofactor, lemma_divisor_bounds, lemma_multiple_divides,
};
use crate::euclid::{
    coprime, lemma_common_divisor_not_coprime, lemma_coprime_cancel, lemma_coprime_product,
    lemma_distinct_primes_coprime, lemma_prime_coprime,
};
use crate::totient::{
    coprime_residues_below, is_coprime_residue, lemma_coprime_residues_finite,
    lemma_coprime_residues_step, totient,
};

verus! {

/// Below the product of two distinct primes, a positive number is coprime to
/// the product exactly when neither prime divides it, and no such number is
/// divisible by both.
pub proof fn lemma_coprime_to_semiprime(k: nat, p: nat, q: nat)
    requires
        is_prime(p),
        is_prime(q),
        p != q,
        1 <= k < p * q,
    ensures
        coprime(k, p * q) <==> !divides(p, k) && !divides(q, k),
        !(divides(p, k) && divides(q, k)),
{
    lemma_multiple_divides(p, q as int, p * q);
    assert(p * q == q * p) by (nonlinear_arith);
    lemma_multiple_divides(q, p as int, p * q);
    if divides(p, k) {
        lemma_common_divisor_not_coprime(p, k, p * q);
    }
    if divides(q, k) {
        lemma_common_divisor_not_coprime(q, k, p * q);
    }
    if !divides(p, k) && !divides(q, k) {
        lemma_prime_coprime(p, k);
        lemma_prime_coprime(q, k);
        lemma_coprime_product(k, p, q);
    }
    if divides(p, k) && divides(q, k) {
        let j = lemma_divides_cofactor(q, k);
        lemma_distinct_primes_coprime(q, p);
        lemma_coprime_cancel(q, j, p);
        assert(j >= 1) by (nonlinear_arith)
            requires
                k == q * j,
                k >= 1,
        ;
        lemma_divisor_bounds(p, j);
        assert(q * j >= q * p) by (nonlinear_arith)
            requires
                j >= p,
        ;
    }
}

/// Stepping from `k - 1` to `k` raises the quotient by `d` exactly when `d`
/// divides `k`.
pub proof fn lemma_quotient_step(k: nat, d: nat)
    requires
        k >= 1,
        d >= 1,
    ensures
        k / d == (k - 1) / (d as int) + if divides(d, k) {
            1int
        } else {
            0int
        },
{
    let quotient = (k / d) as int;
    let r = (k % d) as int;
    lemma_fundamental_div_mod(k as int, d as int);
    if r == 0 {
        assert(k - 1 == (quotient - 1) * d + (d - 1)) by (nonlinear_arith)
            requires
                k == d * quotient + r,
                r == 0,
        ;
        lemma_fundamental_div_mod_converse(k - 1, d as int, quotient - 1, d - 1);
    } else {
        assert(k - 1 == quotient * d + (r - 1)) by (nonlinear_arith)
            requires
                k == d * quotient + r,
        ;
        lemma_fundamental_div_mod_converse(k - 1, d as int, quotient, r - 1);
    }
}

/// How many residues below `bound` are coprime to `p * q`, for `bound` up to
/// the product: all of them but the multiples of `p` and of `q`.
pub proof fn lemma_semiprime_count(p: nat, q: nat, bound: nat)
    requires
        is_prime(p),
        is_prime(q),
        p != q,
        1 <= bound <= p * q,
    ensures
        coprime_residues_below(p * q, bound).len() == (bound - 1) - (bound - 1) / (p as int) - (
        bound - 1) / (q as int),
    decreases bound,
{
    let n = p * q;
    if bound == 1 {
        lemma_coprime_residues_finite(n, 0);
        lemma_coprime_residues_step(n, 0);
    } else {
        let k = (bound - 1) as nat;
        lemma_semiprime_count(p, q, k);
        lemma_coprime_residues_finite(n, k);
        lemma_coprime_residues_step(n, k);
        lemma_coprime_to_semiprime(k, p, q);
        lemma_quotient_step(k, p);
        lemma_quotient_step(k, q);
        assert(is_coprime_residue(k, n) <==> !divides(p, k) && !divides(q, k));
    }
}

/// The totient of a product of two distinct primes is `(p - 1) * (q - 1)`.
pub proof fn lemma_totient_semiprime(p: nat, q: nat)
    requires
        is_prime(p),
        is_prime(q),
        p != q,
    ensures
        totient(p * q) == (p - 1) * (q - 1),
{
    let n = p * q;
    assert(n >= 4 && n == q * p) by (nonlinear_arith)
        requires
            p >= 2,
            q >= 2,
            n == p * q,
    ;
    lemma_semiprime_count(p, q, n);
    lemma_coprime_residues_finite(n, n);
    assert(n - 1 == (q - 1) * p + (p - 1)) by (nonlinear_arith)
        requires
            n == p * q,
    ;
    lemma_fundamental_div_mod_converse(n - 1, p as int, q - 1, p - 1);
    assert(n - 1 == (p - 1) * q + (q - 1)) by (nonlinear_arith)
        requires
            n == p * q,
    ;
    lemma_fundamental_div_mod_converse(n - 1, q as int, p - 1, q - 1);
    assert((n - 1) - (q - 1) - (p - 1) == (p - 1) * (q - 1)) by (nonlinear_arith)
        requires
            n == p * q,
    ;
}

} // verus!
