//! Why decryption undoes encryption: for a modulus that is the product of
//! two distinct primes and exponents inverse to each other modulo its
//! totient, raising to both exponents in turn gives every residue back.

use vstd::prelude::*;
use vstd::arithmetic::div_mod::{
    lemma_fundamental_div_mod, lemma_mod_bound, lemma_mod_equivalence, lemma_mul_mod_noop_left,
    lemma_mul_mod_noop_right, lemma_small_mod,
};
use vstd::arithmetic::power::{
    lemma0_pow, lemma1_pow, lemma_pow1, lemma_pow_adds, lemma_pow_increases, lemma_pow_mod_noop,
    lemma_pow_multiplies, lemma_pow_positive, pow,
};
use num_bigint::BigUint;
use crate::bignum::big_value;
use crate::divisibility::{divides, is_prime, lemma_divides_cofactor, lemma_multiple_divides};
use crate::euclid::{lemma_coprime_cancel, lemma_distinct_primes_coprime};
use crate::fermat::lemma_fermat_little;
use crate::inverse::is_inverse;
use crate::keygen::is_key_set;
use crate::keys::KeyPair;
use crate::semiprime::lemma_totient_semiprime;
use crate::totient::totient;
use crate::transcoder::{
    is_decryption, is_encryption, lemma_decryption_unique, mod_pow, overflows_symbol, symbol_value,
    transformed,
};

verus! {

/// A product with a factor divisible by `modulus` is divisible by it.
pub proof fn lemma_multiple_of_zero_residue(x: int, y: int, modulus: int)
    requires
        modulus > 0,
        x % modulus == 0,
    ensures
        (x * y) % modulus == 0,
{
    lemma_mul_mod_noop_left(x, y, modulus);
    assert(0 * y == 0);
    lemma_small_mod(0, modulus as nat);
}

/// Modulo a prime `p`, raising to a power of the form `1 + k * (p - 1)`
/// changes nothing.
pub proof fn lemma_power_fixes_residue(m: nat, k: nat, p: nat)
    requires
        is_prime(p),
    ensures
        pow(m as int, (1 + k * (p - 1)) as nat) % (p as int) == m % p,
{
    let modulus = p as int;
    let exponent = (k * (p - 1)) as nat;
    let rest = pow(m as int, exponent);
    assert(k * (p - 1) >= 0) by (nonlinear_arith)
        requires
            p >= 1,
    ;
    lemma_pow_adds(m as int, 1, exponent);
    lemma_pow1(m as int);
    lemma_mul_mod_noop_right(m as int, rest, modulus);
    if divides(p, m) {
        lemma_multiple_of_zero_residue(m as int, rest, modulus);
    } else {
        let base = pow(m as int, (p - 1) as nat);
        lemma_fermat_little(m, p);
        lemma_pow_multiplies(m as int, (p - 1) as nat, k);
        assert((p - 1) * k == k * (p - 1)) by (nonlinear_arith);
        lemma_pow_mod_noop(base, k, modulus);
        lemma1_pow(k);
        lemma_small_mod(1, p);
        assert(m * 1 == m);
    }
}

/// Two residues that agree modulo each of two distinct primes agree modulo
/// their product.
pub proof fn lemma_agree_modulo_product(x: nat, m: nat, p: nat, q: nat)
    requires
        is_prime(p),
        is_prime(q),
        p != q,
        m <= x,
        x % p == m % p,
        x % q == m % q,
    ensures
        x % (p * q) == m % (p * q),
{
    let diff = (x - m) as nat;
    assert(p * q > 0) by (nonlinear_arith)
        requires
            p >= 2,
            q >= 2,
    ;
    lemma_mod_equivalence(x as int, m as int, p as int);
    lemma_mod_equivalence(x as int, m as int, q as int);
    let j = lemma_divides_cofactor(p, diff);
    lemma_distinct_primes_coprime(p, q);
    lemma_coprime_cancel(p, j, q);
    let i = lemma_divides_cofactor(q, j);
    assert(diff == (p * q) * i) by (nonlinear_arith)
        requires
            diff == p * j,
            j == q * i,
    ;
    lemma_multiple_divides(p * q, i as int, diff);
    lemma_mod_equivalence(x as int, m as int, (p * q) as int);
}

/// The heart of RSA: with `n = p * q` for distinct primes and
/// `e * d = 1 (mod (p - 1) * (q - 1))`, every residue `m` below `n`
/// satisfies `m^(e * d) = m (mod n)`.
pub proof fn lemma_exponents_cancel(m: nat, e: nat, d: nat, p: nat, q: nat)
    requires
        is_prime(p),
        is_prime(q),
        p != q,
        is_inverse(d, e, ((p - 1) * (q - 1)) as nat),
        m < p * q,
    ensures
        pow(m as int, e * d) % ((p * q) as int) == m,
{
    let phi_n = ((p - 1) * (q - 1)) as nat;
    let t = (d * e) / phi_n;
    lemma_fundamental_div_mod((d * e) as int, phi_n as int);
    assert(e * d == d * e) by (nonlinear_arith);
    assert(e * d == 1 + (t * (q - 1)) * (p - 1) && e * d == 1 + (t * (p - 1)) * (q - 1) && t * (q
        - 1) >= 0 && t * (p - 1) >= 0) by (nonlinear_arith)
        requires
            d * e == phi_n * t + 1,
            phi_n == (p - 1) * (q - 1),
            e * d == d * e,
            p >= 2,
            q >= 2,
            t >= 0,
    ;
    lemma_power_fixes_residue(m, (t * (q - 1)) as nat, p);
    lemma_power_fixes_residue(m, (t * (p - 1)) as nat, q);
    let x = pow(m as int, e * d);
    if m == 0 {
        lemma0_pow(e * d);
    } else {
        lemma_pow_positive(m as int, e * d);
        lemma_pow_increases(m, 1, e * d);
        lemma_pow1(m as int);
    }
    lemma_agree_modulo_product(x as nat, m, p, q);
    lemma_small_mod(m, p * q);
}

/// Raising to `e` and then to `d`, reducing modulo `n` each time, is raising
/// to `e * d` and reducing once.
pub proof fn lemma_mod_pow_composes(m: nat, e: nat, d: nat, n: nat)
    requires
        n > 0,
    ensures
        mod_pow(mod_pow(m, e, n), d, n) == pow(m as int, e * d) % (n as int),
{
    let inner = pow(m as int, e);
    lemma_mod_bound(inner, n as int);
    lemma_pow_mod_noop(inner, d, n as int);
    lemma_pow_multiplies(m as int, e, d);
}

/// Decrypting what was encrypted gives the value back: for a key derived
/// from two distinct primes `p` and `q`, every value `m` below the modulus
/// satisfies `decrypt(encrypt(m)) = m`.
pub proof fn lemma_round_trip(m: nat, public: KeyPair, private: KeyPair, p: nat, q: nat)
    requires
        is_prime(p),
        is_prime(q),
        p != q,
        is_key_set(public, private, p * q, totient(p * q)),
        m < p * q,
    ensures
        transformed(transformed(m, public), private) == m,
{
    lemma_totient_semiprime(p, q);
    assert((p - 1) * (q - 1) >= 0) by (nonlinear_arith)
        requires
            p >= 2,
            q >= 2,
    ;
    lemma_exponents_cancel(m, public.exponent as nat, private.exponent as nat, p, q);
    lemma_mod_pow_composes(m, public.exponent as nat, private.exponent as nat, p * q);
}

/// At the level of whole messages: whatever is the encryption of `message`
/// under the public half of such a key decrypts under the private half to
/// `message` again, provided every character is a symbol below the modulus.
pub proof fn lemma_message_round_trip(
    message: Seq<char>,
    cipher: Seq<BigUint>,
    public: KeyPair,
    private: KeyPair,
    p: nat,
    q: nat,
)
    requires
        is_prime(p),
        is_prime(q),
        p != q,
        is_key_set(public, private, p * q, totient(p * q)),
        forall|i: int| 0 <= i < message.len() ==> 0 <= (#[trigger] message[i]) as int <= 255,
        forall|i: int| 0 <= i < message.len() ==> ((#[trigger] message[i]) as int) < p * q,
        is_encryption(cipher, message, public),
    ensures
        is_decryption(message, cipher, private),
        !overflows_symbol(cipher, private),
        forall|text: Seq<char>| #[trigger] is_decryption(text, cipher, private) ==> text == message,
{
    assert forall|i: int| 0 <= i < message.len() implies (#[trigger] message[i]) as int
        == transformed(big_value(cipher[i]), private) && transformed(
        big_value(cipher[i]),
        private,
    ) <= 255 by {
        let m = message[i] as nat;
        lemma_small_mod(m, 256);
        assert(symbol_value(message[i]) == m);
        lemma_round_trip(m, public, private, p, q);
        assert(big_value(cipher[i]) == transformed(m, public));
    }
    assert forall|i: int| 0 <= i < cipher.len() implies !(transformed(
        big_value(#[trigger] cipher[i]),
        private,
    ) > 255) by {
        assert(message[i] as int == transformed(big_value(cipher[i]), private));
    }
    assert forall|text: Seq<char>| #[trigger] is_decryption(text, cipher, private) implies text
        == message by {
        lemma_decryption_unique(text, message, cipher, private);
    }
}

} // verus!
