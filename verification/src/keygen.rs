//! The key-derivation pipeline: from two factors to a public and a private
//! key pair.

use vstd::prelude::*;
use crate::inverse::{compute_inverse, is_least_inverse};
use crate::keys::{KeyPair, RsaError};
use crate::sampler::{is_usable_exponent, random_coprime, usable_exponent};
use crate::totient::{phi, totient};

verus! {

/// `n` is a modulus that the pipeline accepts: at least two, and narrow
/// enough for the exhaustive totient scan.
pub open spec fn is_valid_modulus(n: nat) -> bool {
    2 <= n <= u32::MAX
}

/// `public` and `private` are the two halves of a key for the modulus `n`
/// whose exponents are inverse to each other modulo `phi_n`.
pub open spec fn is_key_set(public: KeyPair, private: KeyPair, n: nat, phi_n: nat) -> bool {
    &&& public.modulus == n
    &&& private.modulus == n
    &&& is_usable_exponent(public.exponent as nat, phi_n)
    &&& is_least_inverse(private.exponent as nat, public.exponent as nat, phi_n)
}

/// The modulus `n = p * q`, where the pipeline accepts it.
pub fn derive_modulus(p: u128, q: u128) -> (r: Result<u32, RsaError>)
    ensures
        match r {
            Ok(n) => n == p * q && is_valid_modulus(n as nat),
            Err(e) => e == RsaError::InvalidModulus && !is_valid_modulus((p * q) as nat),
        },
{
    match p.checked_mul(q) {
        Some(n) => {
            if 2 <= n && n <= 0xFFFF_FFFF {
                Ok(n as u32)
            } else {
                Err(RsaError::InvalidModulus)
            }
        },
        None => Err(RsaError::InvalidModulus),
    }
}

/// Completes a key for the modulus `n` with totient `phi_n` from a proposed
/// public exponent `e`: the private exponent is the least inverse of `e`
/// modulo `phi_n`. An exponent that is not usable is refused.
pub fn assemble_keys(n: u32, phi_n: u32, e: u32) -> (r: Result<(KeyPair, KeyPair), RsaError>)
    ensures
        match r {
            Ok((public, private)) => is_key_set(public, private, n as nat, phi_n as nat)
                && public.exponent == e,
            Err(err) => err == RsaError::NonTerminatingSearch && !is_usable_exponent(
                e as nat,
                phi_n as nat,
            ),
        },
{
    if usable_exponent(e, phi_n).is_none() {
        return Err(RsaError::NonTerminatingSearch);
    }
    match compute_inverse(e, phi_n) {
        Ok(d) => Ok(
            (KeyPair { modulus: n as u128, exponent: e }, KeyPair { modulus: n as u128, exponent: d }),
        ),
        Err(err) => Err(err),
    }
}

/// Derives a key from the factors `p` and `q`: the modulus is `p * q`, the
/// totient is counted by exhaustive scan, the public exponent is drawn at
/// random and the private exponent is its least inverse.
///
/// Neither factor is tested for primality. A product below two or above
/// `u32::MAX` is rejected. A totient of two or less leaves no exponent to
/// choose, and the search is reported as failed; so is a search that has
/// used up its draws.
pub fn generate_keys(p: u128, q: u128) -> (r: Result<(KeyPair, KeyPair), RsaError>)
    ensures
        match r {
            Ok((public, private)) => is_valid_modulus((p * q) as nat) && is_key_set(
                public,
                private,
                (p * q) as nat,
                totient((p * q) as nat),
            ),
            Err(RsaError::InvalidModulus) => !is_valid_modulus((p * q) as nat),
            Err(RsaError::NonTerminatingSearch) => is_valid_modulus((p * q) as nat),
            Err(RsaError::NarrowingOverflow) => false,
        },
        is_valid_modulus((p * q) as nat) && totient((p * q) as nat) <= 2 ==> r is Err,
{
    let n = match derive_modulus(p, q) {
        Ok(n) => n,
        Err(e) => {
            return Err(e);
        },
    };
    let phi_n = phi(n).0;
    let e = match random_coprime(phi_n) {
        Ok(e) => e,
        Err(err) => {
            return Err(err);
        },
    };
    assemble_keys(n, phi_n, e)
}

} // verus!
