//! The modular inverse by linear search: the least `d` with
//! `d * e mod m == 1`, and when such a `d` exists.

use vstd::prelude::*;
use vstd::arithmetic::div_mod::{
    lemma_fundamental_div_mod, lemma_mod_bound, lemma_mod_multiples_vanish, lemma_mul_mod_noop_left,
    lemma_small_mod,
};
use crate::divisibility::{lemma_divides_combination, lemma_divisor_bounds};
use crate::euclid::{coprime, gcd_nat, lemma_bezout, lemma_gcd_divides};
use crate::keys::RsaError;

verus! {

/// `d` is an inverse of `e` modulo `modulus`.
pub open spec fn is_inverse(d: nat, e: nat, modulus: nat) -> bool {
    modulus > 0 && (d * e) % modulus == 1
}

/// `d` is the least inverse of `e` modulo `modulus`.
pub open spec fn is_least_inverse(d: nat, e: nat, modulus: nat) -> bool {
    &&& is_inverse(d, e, modulus)
    &&& forall|k: nat| k < d ==> !#[trigger] is_inverse(k, e, modulus)
}

/// `e` has an inverse modulo `modulus`.
pub open spec fn has_inverse(e: nat, modulus: nat) -> bool {
    exists|d: nat| #[trigger] is_inverse(d, e, modulus)
}

/// Reducing an inverse modulo the modulus leaves an inverse, so the least one
/// lies below the modulus.
pub proof fn lemma_inverse_reduces(d: nat, e: nat, modulus: nat)
    requires
        is_inverse(d, e, modulus),
    ensures
        is_inverse(d % modulus, e, modulus),
        d % modulus < modulus,
{
    lemma_mul_mod_noop_left(d as int, e as int, modulus as int);
    lemma_mod_bound(d as int, modulus as int);
}

/// An inverse of `e` modulo `modulus` witnesses that the modulus is at least
/// two and coprime to `e`.
pub proof fn lemma_inverse_implies_coprime(d: nat, e: nat, modulus: nat)
    requires
        is_inverse(d, e, modulus),
    ensures
        modulus >= 2,
        coprime(e, modulus),
{
    let g = gcd_nat(e, modulus);
    let q = ((d * e) / modulus) as int;
    lemma_fundamental_div_mod((d * e) as int, modulus as int);
    lemma_gcd_divides(e, modulus);
    assert(1 == e * (d as int) + modulus * (-q)) by (nonlinear_arith)
        requires
            d * e == modulus * q + 1,
    ;
    lemma_divides_combination(g, e, modulus, d as int, -q, 1);
    lemma_divisor_bounds(g, 1);
}

/// An exponent coprime to a modulus of at least two has an inverse below the
/// modulus; the inverse is returned.
pub proof fn lemma_coprime_implies_inverse(e: nat, modulus: nat) -> (d: nat)
    requires
        modulus >= 2,
        coprime(e, modulus),
    ensures
        d < modulus,
        is_inverse(d, e, modulus),
{
    let (x, y) = lemma_bezout(e, modulus);
    let m = modulus as int;
    lemma_mod_bound(x, m);
    let d = (x % m) as nat;
    lemma_mul_mod_noop_left(x, e as int, m);
    assert(x * e == m * (-y) + 1) by (nonlinear_arith)
        requires
            e * x + m * y == 1,
    ;
    lemma_mod_multiples_vanish(-y, 1, m);
    lemma_small_mod(1, modulus);
    d
}

/// An inverse exists exactly when the modulus is at least two and coprime to
/// the exponent.
pub proof fn lemma_inverse_exists_iff_coprime(e: nat, modulus: nat)
    ensures
        has_inverse(e, modulus) <==> modulus >= 2 && coprime(e, modulus),
{
    if has_inverse(e, modulus) {
        let d = choose|d: nat| #[trigger] is_inverse(d, e, modulus);
        lemma_inverse_implies_coprime(d, e, modulus);
    }
    if modulus >= 2 && coprime(e, modulus) {
        let d = lemma_coprime_implies_inverse(e, modulus);
        assert(is_inverse(d, e, modulus));
    }
}

/// The least `d` with `d * e mod phi_n == 1`, found by trying
/// `d = 0, 1, 2, ...` in turn. The search stops below `phi_n`: where no
/// inverse lies there, none exists, and that is reported.
pub fn compute_inverse(e: u32, phi_n: u32) -> (r: Result<u32, RsaError>)
    ensures
        match r {
            Ok(d) => d < phi_n && is_least_inverse(d as nat, e as nat, phi_n as nat),
            Err(err) => err == RsaError::NonTerminatingSearch && !has_inverse(
                e as nat,
                phi_n as nat,
            ),
        },
        r is Ok <==> phi_n >= 2 && coprime(e as nat, phi_n as nat),
{
    let mut d: u32 = 0;
    while d < phi_n
        invariant
            d <= phi_n,
            forall|k: nat| k < d ==> !#[trigger] is_inverse(k, e as nat, phi_n as nat),
        decreases phi_n - d,
    {
        assert(d * e <= 0xFFFF_FFFF * 0xFFFF_FFFF) by (nonlinear_arith)
            requires
                d <= 0xFFFF_FFFF,
                e <= 0xFFFF_FFFF,
        ;
        if (d as u64 * e as u64) % (phi_n as u64) == 1 {
            proof {
                assert(is_inverse(d as nat, e as nat, phi_n as nat));
                lemma_inverse_exists_iff_coprime(e as nat, phi_n as nat);
            }
            return Ok(d);
        }
        d += 1;
    }
    proof {
        assert forall|k: nat| !#[trigger] is_inverse(k, e as nat, phi_n as nat) by {
            if is_inverse(k, e as nat, phi_n as nat) {
                lemma_inverse_reduces(k, e as nat, phi_n as nat);
            }
        }
        lemma_inverse_exists_iff_coprime(e as nat, phi_n as nat);
    }
    Err(RsaError::NonTerminatingSearch)
}

} // verus!
