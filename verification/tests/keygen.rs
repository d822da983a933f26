use textbook_rsa::gcd;
use textbook_rsa::keygen::{assemble_keys, derive_modulus, generate_keys};
use textbook_rsa::keys::{KeyPair, RsaError};
use textbook_rsa::transcoder::{decrypt, decrypt_symbol, encrypt, encrypt_symbol};

#[test]
fn the_modulus_is_the_product_of_the_factors() {
    assert_eq!(derive_modulus(61, 53), Ok(3233));
    assert_eq!(derive_modulus(1, 2), Ok(2));
    assert_eq!(derive_modulus(65537, 65535), Ok(4294967295));
}

#[test]
fn a_product_below_two_is_rejected() {
    assert_eq!(derive_modulus(0, 5), Err(RsaError::InvalidModulus));
    assert_eq!(derive_modulus(5, 0), Err(RsaError::InvalidModulus));
    assert_eq!(derive_modulus(1, 1), Err(RsaError::InvalidModulus));
    assert_eq!(generate_keys(0, 0), Err(RsaError::InvalidModulus));
    assert_eq!(generate_keys(1, 1), Err(RsaError::InvalidModulus));
}

#[test]
fn a_product_too_wide_for_the_scan_is_rejected() {
    assert_eq!(derive_modulus(65536, 65536), Err(RsaError::InvalidModulus));
    assert_eq!(derive_modulus(u128::MAX, 2), Err(RsaError::InvalidModulus));
    assert_eq!(derive_modulus(u128::MAX, u128::MAX), Err(RsaError::InvalidModulus));
    assert_eq!(generate_keys(u128::MAX, 3), Err(RsaError::InvalidModulus));
    assert_eq!(generate_keys(1 << 16, 1 << 16), Err(RsaError::InvalidModulus));
}

#[test]
fn keys_for_3233_with_exponent_seventeen() {
    let public = KeyPair { modulus: 3233, exponent: 17 };
    let private = KeyPair { modulus: 3233, exponent: 2753 };
    assert_eq!(assemble_keys(3233, 3120, 17), Ok((public, private)));
}

#[test]
fn an_unusable_exponent_is_refused() {
    assert_eq!(assemble_keys(3233, 3120, 1), Err(RsaError::NonTerminatingSearch));
    assert_eq!(assemble_keys(3233, 3120, 0), Err(RsaError::NonTerminatingSearch));
    assert_eq!(assemble_keys(3233, 3120, 6), Err(RsaError::NonTerminatingSearch));
    assert_eq!(assemble_keys(3233, 3120, 3120), Err(RsaError::NonTerminatingSearch));
    assert_eq!(assemble_keys(3233, 3120, 3121), Err(RsaError::NonTerminatingSearch));
    assert_eq!(assemble_keys(6, 2, 1), Err(RsaError::NonTerminatingSearch));
    assert_eq!(assemble_keys(2, 1, 1), Err(RsaError::NonTerminatingSearch));
    assert_eq!(assemble_keys(0, 0, 0), Err(RsaError::NonTerminatingSearch));
}

#[test]
fn a_totient_of_two_or_less_leaves_no_exponent() {
    assert_eq!(generate_keys(1, 2), Err(RsaError::NonTerminatingSearch));
    assert_eq!(generate_keys(1, 3), Err(RsaError::NonTerminatingSearch));
    assert_eq!(generate_keys(2, 2), Err(RsaError::NonTerminatingSearch));
    assert_eq!(generate_keys(2, 3), Err(RsaError::NonTerminatingSearch));
}

#[test]
fn the_smallest_key() {
    let public = KeyPair { modulus: 5, exponent: 3 };
    let private = KeyPair { modulus: 5, exponent: 3 };
    assert_eq!(generate_keys(1, 5), Ok((public, private)));
}

#[test]
fn generated_exponents_are_inverse_modulo_the_totient() {
    for _ in 0..20 {
        let (public, private) = generate_keys(61, 53).unwrap();
        assert_eq!(public.modulus, 3233);
        assert_eq!(private.modulus, 3233);
        let e = public.exponent;
        let d = private.exponent;
        assert!(1 < e && e < 3120);
        assert_eq!(gcd(e, 3120), 1);
        assert!(d < 3120);
        assert_eq!((e as u64 * d as u64) % 3120, 1);
    }
}

#[test]
fn generated_keys_round_trip_every_residue_symbol() {
    let (public, private) = generate_keys(61, 53).unwrap();
    for m in 0u8..=255 {
        let c = encrypt_symbol(m, public).unwrap();
        assert_eq!(decrypt_symbol(&c, private), Ok(m));
    }
}

#[test]
fn generated_keys_round_trip_a_message() {
    let (public, private) = generate_keys(17, 19).unwrap();
    let message = "textbook RSA, symbol by symbol";
    let cipher = encrypt(String::from(message), public).unwrap();
    assert_eq!(cipher.len(), message.len());
    assert_eq!(decrypt(cipher, private), Ok(String::from(message)));
}

#[test]
fn a_modulus_that_is_no_product_of_distinct_primes_need_not_round_trip() {
    let (public, private) = assemble_keys(9, 6, 5).unwrap();
    assert_eq!(private.exponent, 5);
    let c = encrypt_symbol(3, public).unwrap();
    assert_eq!(decrypt_symbol(&c, private), Ok(0));
}
