//! The greatest common divisor by the Euclidean recurrence, and what follows
//! from it: the characterisation as the greatest common divisor, Bézout's
//! identity and cancellation of coprime factors.

use vstd::prelude::*;
use vstd::arithmetic::div_mod::lemma_fundamental_div_mod;
use crate::divisibility::{
    divides, is_prime, lemma_divides_cofactor, lemma_divides_combination, lemma_divisor_bounds,
    lemma_multiple_divides,
};

verus! {

/// The Euclidean recurrence: `gcd(0, b) = b`, `gcd(a, b) = gcd(b mod a, a)`.
pub open spec fn gcd_nat(a: nat, b: nat) -> nat
    decreases a,
{
    if a == 0 {
        b
    } else {
        gcd_nat(b % a, a)
    }
}

/// `g` divides both `a` and `b`, and every common divisor of `a` and `b`
/// divides `g`.
pub open spec fn is_gcd(g: nat, a: nat, b: nat) -> bool {
    &&& divides(g, a)
    &&& divides(g, b)
    &&& forall|d: nat| #[trigger] divides(d, a) && divides(d, b) ==> divides(d, g)
}

/// `a` and `b` have no common divisor but one.
pub open spec fn coprime(a: nat, b: nat) -> bool {
    gcd_nat(a, b) == 1
}

/// The recurrence yields a common divisor.
pub proof fn lemma_gcd_divides(a: nat, b: nat)
    ensures
        divides(gcd_nat(a, b), a),
        divides(gcd_nat(a, b), b),
    decreases a,
{
    if a == 0 {
        lemma_multiple_divides(b, 0, 0);
        lemma_multiple_divides(b, 1, b);
    } else {
        let g = gcd_nat(a, b);
        lemma_gcd_divides(b % a, a);
        lemma_fundamental_div_mod(b as int, a as int);
        lemma_divides_combination(g, a, b % a, (b / a) as int, 1, b);
    }
}

/// Every common divisor divides what the recurrence yields.
pub proof fn lemma_gcd_greatest(a: nat, b: nat, d: nat)
    requires
        divides(d, a),
        divides(d, b),
    ensures
        divides(d, gcd_nat(a, b)),
    decreases a,
{
    if a != 0 {
        lemma_fundamental_div_mod(b as int, a as int);
        let q = (b / a) as int;
        assert(b % a == b * 1 + a * (-q)) by (nonlinear_arith)
            requires
                b == a * q + b % a,
        ;
        lemma_divides_combination(d, b, a, 1, -q, b % a);
        lemma_gcd_greatest(b % a, a, d);
    }
}

/// The recurrence computes the greatest common divisor.
pub proof fn lemma_gcd_is_gcd(a: nat, b: nat)
    ensures
        is_gcd(gcd_nat(a, b), a, b),
{
    lemma_gcd_divides(a, b);
    assert forall|d: nat| #[trigger] divides(d, a) && divides(d, b) implies divides(
        d,
        gcd_nat(a, b),
    ) by {
        lemma_gcd_greatest(a, b, d);
    }
}

/// Two natural numbers that divide each other are equal.
pub proof fn lemma_divides_antisymmetric(a: nat, b: nat)
    requires
        divides(a, b),
        divides(b, a),
    ensures
        a == b,
{
    if a != 0 && b != 0 {
        lemma_divisor_bounds(a, b);
        lemma_divisor_bounds(b, a);
    }
}

/// The greatest common divisor is unique: what `is_gcd` says of a number
/// determines it.
pub proof fn lemma_gcd_unique(g: nat, h: nat, a: nat, b: nat)
    requires
        is_gcd(g, a, b),
        is_gcd(h, a, b),
    ensures
        g == h,
{
    lemma_divides_antisymmetric(g, h);
}

/// Bézout's identity: returns integers `(x, y)` with
/// `a * x + b * y == gcd(a, b)`.
pub proof fn lemma_bezout(a: nat, b: nat) -> (c: (int, int))
    ensures
        a * c.0 + b * c.1 == gcd_nat(a, b),
    decreases a,
{
    if a == 0 {
        assert(a * 0 + b * 1 == b) by (nonlinear_arith)
            requires
                a == 0,
        ;
        (0, 1)
    } else {
        let (x1, y1) = lemma_bezout(b % a, a);
        let q = (b / a) as int;
        lemma_fundamental_div_mod(b as int, a as int);
        let x = y1 - q * x1;
        assert(a * x + b * x1 == (b % a) * x1 + a * y1) by (nonlinear_arith)
            requires
                b == a * q + b % a,
                x == y1 - q * x1,
        ;
        (x, x1)
    }
}

/// A factor coprime to `n` cancels: if `n` divides `a * b` and `a` is
/// coprime to `n`, then `n` divides `b`.
pub proof fn lemma_coprime_cancel(a: nat, b: nat, n: nat)
    requires
        coprime(a, n),
        divides(n, a * b),
    ensures
        divides(n, b),
{
    let (x, y) = lemma_bezout(a, n);
    let k = lemma_divides_cofactor(n, a * b);
    assert(b == n * (k * x + b * y)) by (nonlinear_arith)
        requires
            a * x + n * y == 1,
            a * b == n * k,
    ;
    lemma_multiple_divides(n, k * x + b * y, b);
}

/// A number coprime to both `p` and `q` is coprime to their product.
pub proof fn lemma_coprime_product(j: nat, p: nat, q: nat)
    requires
        coprime(j, p),
        coprime(j, q),
    ensures
        coprime(j, p * q),
{
    let (x1, y1) = lemma_bezout(j, p);
    let (x2, y2) = lemma_bezout(j, q);
    let g = gcd_nat(j, p * q);
    lemma_gcd_divides(j, p * q);
    let s = j * x1 * x2 + x1 * q * y2 + p * y1 * x2;
    let t = y1 * y2;
    assert(1 == j * s + (p * q) * t) by (nonlinear_arith)
        requires
            j * x1 + p * y1 == 1,
            j * x2 + q * y2 == 1,
            s == j * x1 * x2 + x1 * q * y2 + p * y1 * x2,
            t == y1 * y2,
    ;
    lemma_divides_combination(g, j, p * q, s, t, 1);
    lemma_divisor_bounds(g, 1);
}

/// A prime is coprime to everything it does not divide.
pub proof fn lemma_prime_coprime(p: nat, a: nat)
    requires
        is_prime(p),
        !divides(p, a),
    ensures
        coprime(a, p),
{
    let g = gcd_nat(a, p);
    lemma_gcd_divides(a, p);
    lemma_divisor_bounds(g, p);
    if g != 1 {
        assert(divides(g, p));
        assert(g == p);
    }
}

/// Two numbers with a common divisor other than one are not coprime.
pub proof fn lemma_common_divisor_not_coprime(d: nat, a: nat, b: nat)
    requires
        d != 1,
        divides(d, a),
        divides(d, b),
    ensures
        !coprime(a, b),
{
    lemma_gcd_greatest(a, b, d);
    if coprime(a, b) {
        lemma_divisor_bounds(d, 1);
    }
}

/// Euclid's lemma: a prime that divides a product divides one of the factors.
pub proof fn lemma_prime_divides_product(p: nat, a: nat, b: nat)
    requires
        is_prime(p),
        divides(p, a * b),
    ensures
        divides(p, a) || divides(p, b),
{
    if !divides(p, a) {
        lemma_prime_coprime(p, a);
        lemma_coprime_cancel(a, b, p);
    }
}

/// Two distinct primes are coprime.
pub proof fn lemma_distinct_primes_coprime(p: nat, q: nat)
    requires
        is_prime(p),
        is_prime(q),
        p != q,
    ensures
        coprime(p, q),
{
    if divides(q, p) {
        lemma_divisor_bounds(q, p);
    }
    lemma_prime_coprime(q, p);
}

/// Greatest common divisor of `a` and `b` by the Euclidean recurrence.
pub fn gcd(a: u32, b: u32) -> (g: u32)
    ensures
        g == gcd_nat(a as nat, b as nat),
        is_gcd(g as nat, a as nat, b as nat),
    decreases a,
{
    proof {
        lemma_gcd_is_gcd(a as nat, b as nat);
    }
    if a == 0 {
        return b;
    }
    gcd(b % a, a)
}

} // verus!
