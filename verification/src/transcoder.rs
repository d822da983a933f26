//! Per-symbol modular exponentiation: a message is encrypted symbol by symbol
//! under the public key and decrypted under the private key.

use vstd::prelude::*;
use vstd::arithmetic::div_mod::lemma_mod_bound;
use vstd::arithmetic::power::pow;
use num_bigint::BigUint;
use crate::bignum::{big_from_u8, big_pow, big_rem, big_u32_digits, big_value, digits_value};
use crate::keys::{KeyPair, RsaError};

verus! {

/// `String::push` of the standard library: appends one character to the end
/// of the string. Stated here, not proved.
pub assume_specification[ String::push ](s: &mut String, ch: char)
    ensures
        final(s)@ == old(s)@.push(ch),
;

/// `base` raised to `exponent`, reduced modulo `modulus`.
pub open spec fn mod_pow(base: nat, exponent: nat, modulus: nat) -> nat {
    (pow(base as int, exponent) % (modulus as int)) as nat
}

/// The eight-bit symbol that stands for a character: its code point modulo 256.
pub open spec fn symbol_value(c: char) -> nat {
    (c as nat) % 256
}

/// What a symbol or a ciphertext value becomes under `key`.
pub open spec fn transformed(value: nat, key: KeyPair) -> nat {
    mod_pow(value, key.exponent as nat, key.modulus as nat)
}

/// The eight-bit symbol that stands for `c`.
pub fn symbol_of(c: char) -> (symbol: u8)
    ensures
        symbol == symbol_value(c),
{
    let code: u32 = c as u32;
    (code % 256) as u8
}

/// A normalised digit sequence of two or more digits denotes at least 2^32,
/// and one of a single digit denotes that digit.
pub proof fn lemma_digits_value_bounds(digits: Seq<u32>)
    requires
        digits.len() > 0 ==> digits.last() != 0,
    ensures
        digits.len() == 0 ==> digits_value(digits) == 0,
        digits.len() == 1 ==> digits_value(digits) == digits[0],
        digits.len() >= 1 ==> digits_value(digits) >= 1,
        digits.len() >= 2 ==> digits_value(digits) >= 0x1_0000_0000,
    decreases digits.len(),
{
    if digits.len() >= 1 {
        let rest = digits.drop_first();
        if rest.len() > 0 {
            assert(rest.last() == digits.last());
        }
        lemma_digits_value_bounds(rest);
    }
}

/// `value^exponent mod modulus`, computed in arbitrary precision.
fn big_mod_pow(value: &BigUint, exponent: u32, modulus: u128) -> (r: BigUint)
    requires
        modulus > 0,
    ensures
        big_value(r) == mod_pow(big_value(*value), exponent as nat, modulus as nat),
        big_value(r) < modulus,
{
    let power = big_pow(value, exponent);
    proof {
        lemma_mod_bound(big_value(power) as int, modulus as int);
    }
    big_rem(power, modulus)
}

/// Encrypts one symbol: `m^e mod n` for the key `(n, e)`. Only a modulus of
/// zero, for which there is no remainder, is rejected.
pub fn encrypt_symbol(symbol: u8, public_key: KeyPair) -> (r: Result<BigUint, RsaError>)
    ensures
        match r {
            Ok(c) => public_key.modulus >= 1 && big_value(c) == transformed(
                symbol as nat,
                public_key,
            ) && big_value(c) < public_key.modulus,
            Err(e) => public_key.modulus == 0 && e == RsaError::InvalidModulus,
        },
{
    if public_key.modulus == 0 {
        return Err(RsaError::InvalidModulus);
    }
    let base = big_from_u8(symbol).unwrap();
    Ok(big_mod_pow(&base, public_key.exponent, public_key.modulus))
}

/// Decrypts one ciphertext value: `c^d mod n` for the key `(n, d)`, narrowed
/// to a symbol. A modulus of zero is rejected. A result above 255 is
/// reported, never truncated.
pub fn decrypt_symbol(value: &BigUint, private_key: KeyPair) -> (r: Result<u8, RsaError>)
    ensures
        match r {
            Ok(m) => private_key.modulus >= 1 && m == transformed(big_value(*value), private_key),
            Err(RsaError::InvalidModulus) => private_key.modulus == 0,
            Err(RsaError::NarrowingOverflow) => private_key.modulus >= 1 && transformed(
                big_value(*value),
                private_key,
            ) > 255,
            Err(RsaError::NonTerminatingSearch) => false,
        },
{
    if private_key.modulus == 0 {
        return Err(RsaError::InvalidModulus);
    }
    let plain = big_mod_pow(value, private_key.exponent, private_key.modulus);
    let digits = big_u32_digits(&plain);
    proof {
        lemma_digits_value_bounds(digits@);
    }
    if digits.len() == 0 {
        Ok(0)
    } else if digits.len() == 1 && digits[0] <= 255 {
        Ok(digits[0] as u8)
    } else {
        Err(RsaError::NarrowingOverflow)
    }
}

/// `cipher` is the symbol-by-symbol encryption of `message` under `key`:
/// one value below the modulus for each character, in the same order.
pub open spec fn is_encryption(cipher: Seq<BigUint>, message: Seq<char>, key: KeyPair) -> bool {
    &&& cipher.len() == message.len()
    &&& forall|i: int|
        0 <= i < cipher.len() ==> big_value(#[trigger] cipher[i]) == transformed(
            symbol_value(message[i]),
            key,
        ) && big_value(cipher[i]) < key.modulus
}

/// Each symbol is encrypted on its own, whatever stands before or after it:
/// the encryptions of two messages, joined, are the encryption of the joined
/// messages, and the encryption of a joined message splits into those of
/// its parts.
pub proof fn lemma_encryption_concat(
    first_cipher: Seq<BigUint>,
    first: Seq<char>,
    second_cipher: Seq<BigUint>,
    second: Seq<char>,
    key: KeyPair,
)
    requires
        first_cipher.len() == first.len(),
        second_cipher.len() == second.len(),
    ensures
        is_encryption(first_cipher + second_cipher, first + second, key) <==> is_encryption(
            first_cipher,
            first,
            key,
        ) && is_encryption(second_cipher, second, key),
{
    let cipher = first_cipher + second_cipher;
    let message = first + second;
    let split = first.len() as int;
    if is_encryption(first_cipher, first, key) && is_encryption(second_cipher, second, key) {
        assert forall|i: int| 0 <= i < cipher.len() implies big_value(#[trigger] cipher[i])
            == transformed(symbol_value(message[i]), key) && big_value(cipher[i])
            < key.modulus by {
            if i < split {
                assert(cipher[i] == first_cipher[i] && message[i] == first[i]);
            } else {
                assert(cipher[i] == second_cipher[i - split] && message[i] == second[i - split]);
            }
        }
    }
    if is_encryption(cipher, message, key) {
        assert forall|i: int| 0 <= i < first_cipher.len() implies big_value(
            #[trigger] first_cipher[i],
        ) == transformed(symbol_value(first[i]), key) && big_value(first_cipher[i])
            < key.modulus by {
            assert(cipher[i] == first_cipher[i] && message[i] == first[i]);
        }
        assert forall|i: int| 0 <= i < second_cipher.len() implies big_value(
            #[trigger] second_cipher[i],
        ) == transformed(symbol_value(second[i]), key) && big_value(second_cipher[i])
            < key.modulus by {
            assert(cipher[i + split] == second_cipher[i] && message[i + split] == second[i]);
        }
    }
}

/// `text` is the symbol-by-symbol decryption of `cipher` under `key`: every
/// value decrypts to a symbol, and the character in its place has that code.
pub open spec fn is_decryption(text: Seq<char>, cipher: Seq<BigUint>, key: KeyPair) -> bool {
    &&& text.len() == cipher.len()
    &&& forall|i: int|
        0 <= i < text.len() ==> (#[trigger] text[i]) as int == transformed(
            big_value(cipher[i]),
            key,
        ) && transformed(big_value(cipher[i]), key) <= 255
}

/// A ciphertext has at most one decryption under a key.
pub proof fn lemma_decryption_unique(
    first: Seq<char>,
    second: Seq<char>,
    cipher: Seq<BigUint>,
    key: KeyPair,
)
    requires
        is_decryption(first, cipher, key),
        is_decryption(second, cipher, key),
    ensures
        first == second,
{
    assert forall|i: int| 0 <= i < first.len() implies first[i] == second[i] by {
        assert(first[i] as int == second[i] as int);
    }
    assert(first =~= second);
}

/// Some value of `cipher` decrypts under `key` to more than a symbol holds.
pub open spec fn overflows_symbol(cipher: Seq<BigUint>, key: KeyPair) -> bool {
    exists|i: int| 0 <= i < cipher.len() && transformed(big_value(#[trigger] cipher[i]), key) > 255
}

/// Encrypts `message` under the public key `(n, e)`: each character is taken
/// as an eight-bit symbol `m` and becomes `m^e mod n`. Only a modulus of
/// zero is rejected; under a modulus of one every value is zero.
pub fn encrypt(message: String, public_key: KeyPair) -> (r: Result<Vec<BigUint>, RsaError>)
    ensures
        match r {
            Ok(cipher) => public_key.modulus >= 1 && is_encryption(cipher@, message@, public_key),
            Err(e) => public_key.modulus == 0 && e == RsaError::InvalidModulus,
        },
{
    broadcast use vstd::string::axiom_spec_iter;

    if public_key.modulus == 0 {
        return Err(RsaError::InvalidModulus);
    }
    let mut encrypted_message: Vec<BigUint> = Vec::new();
    let text = message.as_str();
    for c in it: text.chars()
        invariant
            public_key.modulus >= 1,
            it.seq() == message@,
            encrypted_message@.len() == it.index(),
            forall|i: int|
                0 <= i < encrypted_message@.len() ==> big_value(#[trigger] encrypted_message@[i])
                    == transformed(symbol_value(message@[i]), public_key) && big_value(
                    encrypted_message@[i],
                ) < public_key.modulus,
    {
        let base = big_from_u8(symbol_of(c)).unwrap();
        encrypted_message.push(big_mod_pow(&base, public_key.exponent, public_key.modulus));
    }
    Ok(encrypted_message)
}

/// Decrypts `encrypted_message` under the private key `(n, d)`: each value
/// `c` becomes the character with code `c^d mod n`. A modulus of zero is
/// rejected, and so is a message with a value that decrypts to more than 255.
pub fn decrypt(encrypted_message: Vec<BigUint>, private_key: KeyPair) -> (r: Result<
    String,
    RsaError,
>)
    ensures
        match r {
            Ok(text) => private_key.modulus >= 1 && is_decryption(
                text@,
                encrypted_message@,
                private_key,
            ),
            Err(RsaError::InvalidModulus) => private_key.modulus == 0,
            Err(RsaError::NarrowingOverflow) => private_key.modulus >= 1 && overflows_symbol(
                encrypted_message@,
                private_key,
            ),
            Err(RsaError::NonTerminatingSearch) => false,
        },
{
    if private_key.modulus == 0 {
        return Err(RsaError::InvalidModulus);
    }
    let mut decrypted_message: String = String::new();
    let mut i: usize = 0;
    while i < encrypted_message.len()
        invariant
            private_key.modulus >= 1,
            i <= encrypted_message@.len(),
            decrypted_message@.len() == i,
            forall|k: int|
                0 <= k < i ==> (#[trigger] decrypted_message@[k]) as int == transformed(
                    big_value(encrypted_message@[k]),
                    private_key,
                ) && transformed(big_value(encrypted_message@[k]), private_key) <= 255,
        decreases encrypted_message@.len() - i,
    {
        match decrypt_symbol(&encrypted_message[i], private_key) {
            Ok(symbol) => {
                decrypted_message.push(symbol as char);
            },
            Err(e) => {
                return Err(e);
            },
        }
        i += 1;
    }
    Ok(decrypted_message)
}

} // verus!
