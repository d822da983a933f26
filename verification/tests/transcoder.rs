use num_bigint::BigUint;
use textbook_rsa::keys::{KeyPair, RsaError};
use textbook_rsa::transcoder::{decrypt, decrypt_symbol, encrypt, encrypt_symbol, symbol_of};

fn big(value: u64) -> BigUint {
    BigUint::from(value)
}

const PUBLIC: KeyPair = KeyPair { modulus: 3233, exponent: 17 };
const PRIVATE: KeyPair = KeyPair { modulus: 3233, exponent: 2753 };

#[test]
fn symbol_is_the_code_point_modulo_256() {
    assert_eq!(symbol_of('A'), 65);
    assert_eq!(symbol_of('\0'), 0);
    assert_eq!(symbol_of('\u{ff}'), 255);
    assert_eq!(symbol_of('\u{e9}'), 233);
    assert_eq!(symbol_of('\u{100}'), 0);
    assert_eq!(symbol_of('\u{141}'), 65);
    assert_eq!(symbol_of('\u{10ffff}'), 255);
}

#[test]
fn encrypting_the_letter_a_under_3233_and_17() {
    let cipher = encrypt(String::from("A"), PUBLIC).unwrap();
    assert_eq!(cipher, vec![big(2790)]);
}

#[test]
fn decrypting_2790_under_3233_and_2753() {
    assert_eq!(decrypt(vec![big(2790)], PRIVATE), Ok(String::from("A")));
}

#[test]
fn encrypt_symbol_raises_to_the_exponent() {
    let key = KeyPair { modulus: 1000, exponent: 5 };
    assert_eq!(encrypt_symbol(2, key), Ok(big(32)));
    assert_eq!(encrypt_symbol(3, key), Ok(big(243)));
}

#[test]
fn encrypt_symbol_reduces_modulo_the_modulus() {
    assert_eq!(encrypt_symbol(10, KeyPair { modulus: 7, exponent: 1 }), Ok(big(3)));
    assert_eq!(encrypt_symbol(200, KeyPair { modulus: 143, exponent: 7 }), Ok(big(73)));
    assert_eq!(encrypt_symbol(65, PUBLIC), Ok(big(2790)));
}

#[test]
fn exponent_zero_gives_one() {
    assert_eq!(encrypt_symbol(7, KeyPair { modulus: 5, exponent: 0 }), Ok(big(1)));
    assert_eq!(encrypt_symbol(0, KeyPair { modulus: 5, exponent: 0 }), Ok(big(1)));
    assert_eq!(decrypt_symbol(&big(0), KeyPair { modulus: 5, exponent: 0 }), Ok(1));
}

#[test]
fn symbol_zero_encrypts_to_zero_and_back() {
    assert_eq!(encrypt_symbol(0, PUBLIC), Ok(big(0)));
    assert_eq!(decrypt_symbol(&big(0), PRIVATE), Ok(0));
    let cipher = encrypt(String::from("\0"), PUBLIC).unwrap();
    assert_eq!(cipher, vec![big(0)]);
    assert_eq!(decrypt(cipher, PRIVATE), Ok(String::from("\0")));
}

#[test]
fn a_modulus_wider_than_a_machine_word() {
    let modulus: u128 = 1 << 100;
    let key = KeyPair { modulus, exponent: 12 };
    let expected = BigUint::from(255u32).pow(12);
    assert_eq!(encrypt_symbol(255, key), Ok(expected));
    let key = KeyPair { modulus: (1 << 100) + 1, exponent: 20 };
    let expected = BigUint::from(255u32).pow(20) % ((1u128 << 100) + 1);
    assert_eq!(encrypt_symbol(255, key), Ok(expected));
}

#[test]
fn decrypt_symbol_inverts_encrypt_symbol_for_every_symbol() {
    for m in 0u8..=255 {
        let c = encrypt_symbol(m, PUBLIC).unwrap();
        assert!(c < big(3233));
        assert_eq!(decrypt_symbol(&c, PRIVATE), Ok(m));
    }
}

#[test]
fn decrypt_symbol_reports_a_value_above_255() {
    let identity = KeyPair { modulus: 1000, exponent: 1 };
    assert_eq!(decrypt_symbol(&big(255), identity), Ok(255));
    assert_eq!(decrypt_symbol(&big(256), identity), Err(RsaError::NarrowingOverflow));
    assert_eq!(decrypt_symbol(&big(300), identity), Err(RsaError::NarrowingOverflow));
}

#[test]
fn decrypt_symbol_does_not_truncate_a_wide_value() {
    let identity = KeyPair { modulus: 1 << 40, exponent: 1 };
    let wide = big((1 << 32) + 5);
    assert_eq!(decrypt_symbol(&wide, identity), Err(RsaError::NarrowingOverflow));
    let wider = big(1 << 32);
    assert_eq!(decrypt_symbol(&wider, identity), Err(RsaError::NarrowingOverflow));
    assert_eq!(decrypt_symbol(&big(5), identity), Ok(5));
}

#[test]
fn a_modulus_of_zero_is_rejected() {
    let key = KeyPair { modulus: 0, exponent: 3 };
    assert_eq!(encrypt_symbol(5, key), Err(RsaError::InvalidModulus));
    assert_eq!(decrypt_symbol(&big(5), key), Err(RsaError::InvalidModulus));
    assert_eq!(encrypt(String::from("abc"), key), Err(RsaError::InvalidModulus));
    assert_eq!(encrypt(String::new(), key), Err(RsaError::InvalidModulus));
    assert_eq!(decrypt(vec![big(1)], key), Err(RsaError::InvalidModulus));
    assert_eq!(decrypt(vec![], key), Err(RsaError::InvalidModulus));
}

#[test]
fn under_a_modulus_of_one_every_value_is_zero() {
    for exponent in [0u32, 1, 3, 17] {
        let key = KeyPair { modulus: 1, exponent };
        assert_eq!(encrypt_symbol(5, key), Ok(big(0)));
        assert_eq!(encrypt_symbol(0, key), Ok(big(0)));
        assert_eq!(encrypt(String::from("abc"), key), Ok(vec![big(0), big(0), big(0)]));
        assert_eq!(encrypt(String::new(), key), Ok(vec![]));
        assert_eq!(decrypt_symbol(&big(5), key), Ok(0));
        assert_eq!(decrypt(vec![big(7), big(0)], key), Ok(String::from("\0\0")));
        assert_eq!(decrypt(vec![], key), Ok(String::new()));
    }
}

#[test]
fn the_smallest_modulus_with_two_residues() {
    let key = KeyPair { modulus: 2, exponent: 3 };
    assert_eq!(encrypt(String::from("AB"), key), Ok(vec![big(1), big(0)]));
}

#[test]
fn a_joined_message_encrypts_to_the_joined_ciphertexts() {
    for modulus in [1u128, 2, 15, 3233, 1 << 70] {
        let key = KeyPair { modulus, exponent: 17 };
        let first = encrypt(String::from("textbook "), key).unwrap();
        let second = encrypt(String::from("RSA"), key).unwrap();
        let joined = encrypt(String::from("textbook RSA"), key).unwrap();
        let mut expected = first.clone();
        expected.extend(second.iter().cloned());
        assert_eq!(joined, expected);
        for value in &joined {
            assert!(*value < BigUint::from(modulus));
        }
    }
}

#[test]
fn the_empty_message() {
    assert_eq!(encrypt(String::new(), PUBLIC), Ok(vec![]));
    assert_eq!(decrypt(vec![], PRIVATE), Ok(String::new()));
}

#[test]
fn ciphertext_keeps_the_order_and_length_of_the_message() {
    let cipher = encrypt(String::from("Hi!"), PUBLIC).unwrap();
    assert_eq!(cipher, vec![big(3000), big(3179), big(1853)]);
    assert_eq!(decrypt(cipher, PRIVATE), Ok(String::from("Hi!")));
}

#[test]
fn message_round_trip() {
    let message = "The quick brown fox jumps over the lazy dog \u{e9}\u{ff}";
    let cipher = encrypt(String::from(message), PUBLIC).unwrap();
    assert_eq!(cipher.len(), message.chars().count());
    assert_eq!(decrypt(cipher, PRIVATE), Ok(String::from(message)));
}

#[test]
fn characters_above_255_are_taken_modulo_256() {
    let cipher = encrypt(String::from("\u{141}"), PUBLIC).unwrap();
    assert_eq!(cipher, vec![big(2790)]);
    assert_eq!(decrypt(cipher, PRIVATE), Ok(String::from("A")));
}

#[test]
fn decrypt_reports_the_first_value_that_overflows() {
    let identity = KeyPair { modulus: 1000, exponent: 1 };
    assert_eq!(
        decrypt(vec![big(65), big(300), big(66)], identity),
        Err(RsaError::NarrowingOverflow)
    );
    assert_eq!(decrypt(vec![big(65), big(66)], identity), Ok(String::from("AB")));
}

#[test]
fn a_symbol_not_below_the_modulus_does_not_come_back() {
    let public = KeyPair { modulus: 15, exponent: 3 };
    let private = KeyPair { modulus: 15, exponent: 3 };
    let cipher = encrypt(String::from("A"), public).unwrap();
    assert_eq!(cipher, vec![big(5)]);
    assert_eq!(decrypt(cipher, private), Ok(String::from("\u{5}")));
}
