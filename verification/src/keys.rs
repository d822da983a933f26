//! Key pairs and the ways the pipeline can fail.

use vstd::prelude::*;

verus! {

/// One half of an RSA key: the modulus `n` and an exponent. The public half
/// holds the encryption exponent, the private half the decryption exponent.
#[derive(Clone, Copy, Debug, PartialEq, Eq, Structural)]
pub struct KeyPair {
    pub modulus: u128,
    pub exponent: u32,
}

/// Why a step of the pipeline gave no result.
#[derive(Clone, Copy, Debug, PartialEq, Eq, Structural)]
pub enum RsaError {
    /// The modulus is zero; or, in key derivation, the product of the
    /// factors is below two or too wide for the exhaustive totient scan.
    InvalidModulus,
    /// A search for an exponent or an inverse has no candidate left to try.
    NonTerminatingSearch,
    /// A decrypted value does not fit the eight-bit symbol alphabet.
    NarrowingOverflow,
}

} // verus!
