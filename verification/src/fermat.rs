//! Fermat's little theorem, proved by the classical rearrangement argument:
//! multiplying the residues `1, ..., p - 1` by a number that `p` does not
//! divide only permutes them, so both products agree modulo `p`.

use vstd::prelude::*;
use vstd::arithmetic::div_mod::{
    lemma_mod_bound, lemma_mod_equivalence, lemma_mul_mod_noop_left, lemma_mul_mod_noop_right,
    lemma_small_mod,
};
use vstd::arithmetic::power::{lemma_pow0, lemma_pow1, lemma_pow_adds, lemma_pow_positive, pow};
use vstd::set::fold::{is_fun_commutative, lemma_fold_empty, lemma_fold_insert};
use vstd::set_lib::lemma_subset_equality;
use crate::divisibility::{divides, is_prime, lemma_divisor_bounds};
use crate::euclid::{lemma_coprime_cancel, lemma_prime_coprime, lemma_prime_divides_product};

verus! {

/// The residue of `a * i` modulo `p`.
pub open spec fn scaled(a: nat, i: nat, p: nat) -> nat {
    (a * i) % p
}

/// The residues of `a * 1, ..., a * k` modulo `p`, as a set.
pub open spec fn scaled_residues(a: nat, k: nat, p: nat) -> Set<nat> {
    Set::new(|v: nat| exists|i: nat| 1 <= i <= k && #[trigger] scaled(a, i, p) == v)
}

/// The product of the residues of `a * 1, ..., a * k` modulo `p`.
pub open spec fn scaled_product(a: nat, k: nat, p: nat) -> int
    decreases k,
{
    if k == 0 {
        1
    } else {
        scaled(a, k, p) * scaled_product(a, (k - 1) as nat, p)
    }
}

/// Multiplication, as the step of a fold over a set of naturals.
pub open spec fn times() -> spec_fn(int, nat) -> int {
    |acc: int, x: nat| acc * x
}

/// The order in which factors are multiplied does not matter.
pub proof fn lemma_times_commutative()
    ensures
        is_fun_commutative(times()),
{
    assert forall|a1: nat, a2: nat, b: int| #[trigger]
        times()(times()(b, a2), a1) == times()(times()(b, a1), a2) by {
        assert((b * a2) * a1 == (b * a1) * a2) by (nonlinear_arith);
    }
}

/// A prime does not divide one.
pub proof fn lemma_prime_not_divides_one(p: nat)
    requires
        is_prime(p),
    ensures
        !divides(p, 1),
{
    lemma_small_mod(1, p);
}

/// Multiplication by a number that the prime `p` does not divide is
/// injective on the residues below `p`.
pub proof fn lemma_scaled_injective(a: nat, p: nat, i: nat, j: nat)
    requires
        is_prime(p),
        !divides(p, a),
        1 <= i < j < p,
    ensures
        scaled(a, i, p) != scaled(a, j, p),
{
    if scaled(a, i, p) == scaled(a, j, p) {
        lemma_mod_equivalence((a * j) as int, (a * i) as int, p as int);
        let diff = (j - i) as nat;
        assert(a * diff == a * j - a * i) by (nonlinear_arith)
            requires
                diff == j - i,
        ;
        lemma_prime_coprime(p, a);
        lemma_coprime_cancel(a, diff, p);
        lemma_divisor_bounds(p, diff);
    }
}

/// Multiplication by a number that the prime `p` does not divide maps the
/// non-zero residues to non-zero residues.
pub proof fn lemma_scaled_range(a: nat, p: nat, i: nat)
    requires
        is_prime(p),
        !divides(p, a),
        1 <= i < p,
    ensures
        1 <= scaled(a, i, p) < p,
{
    lemma_mod_bound((a * i) as int, p as int);
    if scaled(a, i, p) == 0 {
        lemma_prime_divides_product(p, a, i);
        lemma_divisor_bounds(p, i);
    }
}

/// The first `k` scaled residues are `k` distinct values, and folding
/// multiplication over their set gives their product.
pub proof fn lemma_scaled_fold(a: nat, k: nat, p: nat)
    requires
        is_prime(p),
        !divides(p, a),
        k < p,
    ensures
        scaled_residues(a, k, p).finite(),
        scaled_residues(a, k, p).len() == k,
        scaled_residues(a, k, p).fold(1int, times()) == scaled_product(a, k, p),
    decreases k,
{
    lemma_times_commutative();
    let s = scaled_residues(a, k, p);
    if k == 0 {
        assert(s =~= Set::<nat>::empty());
        lemma_fold_empty::<nat, int>(1int, times());
    } else {
        let prev = scaled_residues(a, (k - 1) as nat, p);
        lemma_scaled_fold(a, (k - 1) as nat, p);
        let v = scaled(a, k, p);
        if prev.contains(v) {
            let i = choose|i: nat| 1 <= i <= k - 1 && #[trigger] scaled(a, i, p) == v;
            lemma_scaled_injective(a, p, i, k);
        }
        assert forall|w: nat| s.contains(w) <==> prev.insert(v).contains(w) by {
            if s.contains(w) {
                let i = choose|i: nat| 1 <= i <= k && #[trigger] scaled(a, i, p) == w;
                if i != k {
                    assert(1 <= i <= k - 1 && scaled(a, i, p) == w);
                }
            }
            if prev.contains(w) {
                let i = choose|i: nat| 1 <= i <= k - 1 && #[trigger] scaled(a, i, p) == w;
                assert(1 <= i <= k && scaled(a, i, p) == w);
            }
            if w == v {
                assert(1 <= k <= k && scaled(a, k, p) == w);
            }
        }
        assert(s =~= prev.insert(v));
        lemma_fold_insert(prev, 1int, times(), v);
        assert(scaled_product(a, (k - 1) as nat, p) * v == v * scaled_product(
            a,
            (k - 1) as nat,
            p,
        )) by (nonlinear_arith);
    }
}

/// Scaling the residues `1, ..., p - 1` by a number that `p` does not divide
/// leaves their product unchanged.
pub proof fn lemma_scaled_products_agree(a: nat, p: nat)
    requires
        is_prime(p),
        !divides(p, a),
    ensures
        scaled_product(a, (p - 1) as nat, p) == scaled_product(1, (p - 1) as nat, p),
{
    let k = (p - 1) as nat;
    let s = scaled_residues(a, k, p);
    let u = scaled_residues(1, k, p);
    lemma_prime_not_divides_one(p);
    lemma_scaled_fold(a, k, p);
    lemma_scaled_fold(1, k, p);
    assert forall|v: nat| s.contains(v) implies u.contains(v) by {
        let i = choose|i: nat| 1 <= i <= k && #[trigger] scaled(a, i, p) == v;
        lemma_scaled_range(a, p, i);
        lemma_small_mod(v, p);
        assert(1 * v == v);
        assert(1 <= v <= k && scaled(1, v, p) == v);
    }
    lemma_subset_equality(s, u);
}

/// Modulo `p`, the product of the first `k` scaled residues is `a^k` times
/// the product of the first `k` residues themselves.
pub proof fn lemma_scaled_product_mod(a: nat, k: nat, p: nat)
    requires
        k < p,
    ensures
        scaled_product(a, k, p) % (p as int) == (pow(a as int, k) * scaled_product(1, k, p)) % (
        p as int),
    decreases k,
{
    let m = p as int;
    if k == 0 {
        lemma_pow0(a as int);
    } else {
        let j = (k - 1) as nat;
        lemma_scaled_product_mod(a, j, p);
        let x = scaled_product(a, j, p);
        let y = scaled_product(1, j, p);
        let power = pow(a as int, j);
        let ak = (a * k) as int;
        lemma_mul_mod_noop_left(ak, x, m);
        lemma_mul_mod_noop_right(ak, x, m);
        lemma_mul_mod_noop_right(ak, power * y, m);
        lemma_small_mod(k, p);
        assert(1 * k == k);
        lemma_pow_adds(a as int, 1, j);
        lemma_pow1(a as int);
        assert(ak * (power * y) == (a * power) * (k * y)) by (nonlinear_arith)
            requires
                ak == a * k,
        ;
    }
}

/// The product of the residues `1, ..., k` below a prime `p` is positive and
/// not divisible by `p`.
pub proof fn lemma_residue_product_not_divisible(k: nat, p: nat)
    requires
        is_prime(p),
        k < p,
    ensures
        scaled_product(1, k, p) >= 1,
        !divides(p, scaled_product(1, k, p) as nat),
    decreases k,
{
    if k == 0 {
        lemma_prime_not_divides_one(p);
    } else {
        let j = (k - 1) as nat;
        lemma_residue_product_not_divisible(j, p);
        let y = scaled_product(1, j, p) as nat;
        lemma_small_mod(k, p);
        assert(1 * k == k);
        assert(k * y >= 1) by (nonlinear_arith)
            requires
                k >= 1,
                y >= 1,
        ;
        if divides(p, k * y) {
            lemma_prime_divides_product(p, k, y);
            lemma_divisor_bounds(p, k);
        }
    }
}

/// Fermat's little theorem: for a prime `p` and a number `a` that `p` does
/// not divide, `a^(p - 1)` leaves the remainder one modulo `p`.
pub proof fn lemma_fermat_little(a: nat, p: nat)
    requires
        is_prime(p),
        !divides(p, a),
    ensures
        pow(a as int, (p - 1) as nat) % (p as int) == 1,
{
    let k = (p - 1) as nat;
    let m = p as int;
    let w = scaled_product(1, k, p);
    let power = pow(a as int, k);
    lemma_scaled_products_agree(a, p);
    lemma_scaled_product_mod(a, k, p);
    lemma_residue_product_not_divisible(k, p);
    lemma_pow_positive(a as int, k);
    lemma_mod_equivalence(power * w, w, m);
    let excess = (power - 1) as nat;
    assert(excess * (w as nat) == power * w - w) by (nonlinear_arith)
        requires
            excess == power - 1,
            w >= 1,
    ;
    lemma_prime_divides_product(p, excess, w as nat);
    lemma_mod_equivalence(power, 1, m);
    lemma_small_mod(1, p);
}

} // verus!
