//! Textbook RSA over small moduli: brute-force totient counting, random
//! exponent selection, modular inverse by linear search and per-symbol
//! modular exponentiation, with every step stated and proved against the
//! underlying number theory.
//!
//! This is a teaching aid, not a cryptosystem: the factors are not tested
//! for primality, there is no padding, and every search is exhaustive.
//!
//! The pipeline is `generate_keys`, then `encrypt` under the public half and
//! `decrypt` under the private half. Its stages can be called on their own:
//! `phi` counts the totient, `random_coprime` draws the public exponent,
//! `compute_inverse` finds the private one. The module `correctness` proves
//! that decryption undoes encryption for a modulus of two distinct primes.

pub mod bignum;
pub mod correctness;
pub mod divisibility;
pub mod euclid;
pub mod fermat;
pub mod inverse;
pub mod keygen;
pub mod keys;
pub mod sampler;
pub mod semiprime;
pub mod totient;
pub mod transcoder;

pub use crate::euclid::gcd;
pub use crate::inverse::compute_inverse;
pub use crate::keygen::generate_keys;
pub use crate::keys::{KeyPair, RsaError};
pub use crate::sampler::random_coprime;
pub use crate::totient::phi;
pub use crate::transcoder::{decrypt, encrypt};
