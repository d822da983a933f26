//! Divisibility and primality over the natural numbers.

use vstd::prelude::*;
use vstd::arithmetic::div_mod::{lemma_fundamental_div_mod, lemma_mod_multiples_basic};

verus! {

/// `d` divides `n`. Zero divides only zero.
pub open spec fn divides(d: nat, n: nat) -> bool {
    if d == 0 {
        n == 0
    } else {
        n % d == 0
    }
}

/// `p` is prime: at least two, with no divisor strictly between one and itself.
pub open spec fn is_prime(p: nat) -> bool {
    &&& p >= 2
    &&& forall|d: nat| 1 < d < p ==> !#[trigger] divides(d, p)
}

/// A divisor comes with a cofactor: returns `k` with `n == d * k`.
pub proof fn lemma_divides_cofactor(d: nat, n: nat) -> (k: nat)
    requires
        divides(d, n),
    ensures
        n == d * k,
{
    if d == 0 {
        0
    } else {
        lemma_fundamental_div_mod(n as int, d as int);
        let k = n / d;
        assert(d * k == d * (n / d)) by (nonlinear_arith)
            requires
                k == n / d,
        ;
        k
    }
}

/// Every integer multiple of `d` that is a natural number is divisible by `d`.
pub proof fn lemma_multiple_divides(d: nat, k: int, n: nat)
    requires
        n == d * k,
    ensures
        divides(d, n),
{
    if d == 0 {
        assert(0 * k == 0) by (nonlinear_arith);
    } else {
        lemma_mod_multiples_basic(k, d as int);
        assert(k * d == d * k) by (nonlinear_arith);
    }
}

/// A divisor of a positive number is positive and no larger than it.
pub proof fn lemma_divisor_bounds(d: nat, n: nat)
    requires
        divides(d, n),
        n > 0,
    ensures
        1 <= d <= n,
{
    let k = lemma_divides_cofactor(d, n);
    assert(d <= d * k) by (nonlinear_arith)
        requires
            d * k > 0,
    ;
}

/// A common divisor of `x` and `y` divides every natural number of the form
/// `x * s + y * t` with integer coefficients.
pub proof fn lemma_divides_combination(d: nat, x: nat, y: nat, s: int, t: int, n: nat)
    requires
        divides(d, x),
        divides(d, y),
        n == x * s + y * t,
    ensures
        divides(d, n),
{
    let i = lemma_divides_cofactor(d, x);
    let j = lemma_divides_cofactor(d, y);
    assert(n == d * (i * s + j * t)) by (nonlinear_arith)
        requires
            x == d * i,
            y == d * j,
            n == x * s + y * t,
    ;
    lemma_multiple_divides(d, i * s + j * t, n);
}

} // verus!
