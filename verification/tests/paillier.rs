//! End-to-end behaviour of the cryptosystem on real arithmetic.

use paillier_core::bignat::Natural;
use paillier_core::error::PaillierError;
use paillier_core::keys::{generate_keys, DecryptionKey, EncryptionKey};
use paillier_core::encryption::{Ciphertext, Plaintext};

fn small_key_pair() -> (EncryptionKey, DecryptionKey) {
    let p = Natural::from_u64(5);
    let q = Natural::from_u64(7);
    let dk = DecryptionKey::from_primes(p, q).expect("5 and 7 must derive a key");
    let ek = dk.encryption_key();
    (ek, dk)
}

#[test]
fn keygen_encrypt_decrypt_round_trip() {
    let (ek, dk) = generate_keys(64).expect("64-bit key generation must succeed");
    let m = Natural::from_u64(42);
    let c = ek.encrypt(&m).expect("encryption must succeed");
    let back = dk.decrypt(&c).expect("decryption must succeed");
    assert_eq!(back.to_u64(), Some(42));
}

#[test]
fn keygen_then_homomorphic_add_of_42_and_7_gives_49() {
    let (ek, dk) = generate_keys(64).expect("64-bit key generation must succeed");
    let c42 = ek.encrypt(&Natural::from_u64(42)).unwrap();
    let c7 = ek.encrypt(&Natural::from_u64(7)).unwrap();
    let sum = ek.add(&c42, &c7);
    let back = dk.decrypt(&sum).expect("decryption must succeed");
    assert_eq!(back.to_u64(), Some(49));
}

#[test]
fn explicit_randomness_gives_the_known_ciphertext() {
    // n = 35, n^2 = 1225, m = 3, r = 2:
    // (1 + 3*35) * (2^35 mod 1225) mod 1225 = 106 * 18 mod 1225 = 683.
    let (ek, dk) = small_key_pair();
    let c = ek.encrypt_with(&Natural::from_u64(3), &Natural::from_u64(2));
    assert_eq!(c.value.to_u64(), Some(683));
    assert_eq!(dk.decrypt(&c).unwrap().to_u64(), Some(3));
    assert_eq!(dk.decrypt_reference(&c).unwrap().to_u64(), Some(3));
}

#[test]
fn homomorphic_add_wraps_modulo_n() {
    let (ek, dk) = small_key_pair();
    let c1 = ek.encrypt_encoded(20).unwrap();
    let c2 = ek.encrypt_encoded(30).unwrap();
    let sum = ek.add(&c1, &c2);
    // (20 + 30) mod 35 = 15
    assert_eq!(dk.decrypt_encoded(&sum), Ok(15));
}

#[test]
fn scalar_multiply_scales_the_plaintext() {
    let (ek, dk) = small_key_pair();
    let c = ek.encrypt_encoded(4).unwrap();
    let scaled = ek.scalar_multiply(&c, &Natural::from_u64(5));
    assert_eq!(dk.decrypt_encoded(&scaled), Ok(20));
    let c10 = ek.encrypt_encoded(10).unwrap();
    let wrapped = ek.scalar_multiply(&c10, &Natural::from_u64(4));
    // (10 * 4) mod 35 = 5
    assert_eq!(dk.decrypt_encoded(&wrapped), Ok(5));
}

#[test]
fn rerandomize_keeps_the_plaintext_and_changes_the_ciphertext() {
    let (ek, dk) = generate_keys(64).expect("64-bit key generation must succeed");
    let c = ek.encrypt(&Natural::from_u64(12345)).unwrap();
    let r = ek.rerandomize(&c).expect("re-randomization must succeed");
    assert!(!r.value.eq_val(&c.value));
    assert_eq!(dk.decrypt(&r).unwrap().to_u64(), Some(12345));
}

#[test]
fn encrypting_twice_gives_different_ciphertexts() {
    let (ek, _dk) = generate_keys(64).expect("64-bit key generation must succeed");
    let m = Natural::from_u64(9);
    let c1 = ek.encrypt(&m).unwrap();
    let c2 = ek.encrypt(&m).unwrap();
    assert!(!c1.value.eq_val(&c2.value));
}

#[test]
fn crt_and_reference_decryption_agree_on_fresh_ciphertexts() {
    let (ek, dk) = generate_keys(64).expect("64-bit key generation must succeed");
    // The modulus is a product of two 32-bit primes, so it is at least
    // 2^62; every value here is strictly below it.
    for m in [0u64, 1, 2, 17, 42, 1 << 40, (1 << 62) - 1] {
        let c = ek.encrypt(&Natural::from_u64(m)).unwrap();
        let by_crt = dk.decrypt(&c).expect("the fast path must accept a fresh ciphertext");
        let by_ref = dk.decrypt_reference(&c).expect(
            "the reference path must accept a fresh ciphertext",
        );
        assert!(by_crt.eq_val(&by_ref));
        assert_eq!(by_crt.to_u64(), Some(m));
    }
}

#[test]
fn crt_and_reference_decryption_agree_on_arbitrary_values() {
    let (_ek, dk) = small_key_pair();
    for raw in 0u64..60 {
        let c = Ciphertext { value: Natural::from_u64(raw) };
        let by_crt = dk.decrypt(&c);
        let by_ref = dk.decrypt_reference(&c);
        match (by_crt, by_ref) {
            (Ok(a), Ok(b)) => assert!(a.eq_val(&b), "paths disagree at {raw}"),
            (Err(a), Err(b)) => assert_eq!(a, b),
            _ => panic!("one path accepted and one rejected ciphertext {raw}"),
        }
    }
}

#[test]
fn too_small_bit_length_is_rejected() {
    assert!(matches!(generate_keys(0), Err(PaillierError::InvalidKeySize)));
    assert!(matches!(generate_keys(4), Err(PaillierError::InvalidKeySize)));
    assert!(matches!(generate_keys(7), Err(PaillierError::InvalidKeySize)));
    assert!(generate_keys(8).is_ok());
}

#[test]
fn encoded_plaintext_at_or_above_n_is_rejected() {
    let (ek, _dk) = small_key_pair();
    assert!(matches!(ek.encrypt_encoded(35), Err(PaillierError::PlaintextOutOfRange)));
    assert!(matches!(ek.encrypt_encoded(40), Err(PaillierError::PlaintextOutOfRange)));
    assert!(ek.encrypt_encoded(34).is_ok());
}

#[test]
fn raw_plaintexts_wrap_and_encoded_plaintexts_do_not() {
    let (ek, dk) = small_key_pair();
    let c = ek.encrypt_plaintext(&Plaintext::Raw(Natural::from_u64(40))).unwrap();
    // Raw mode reduces modulo n on decryption: 40 mod 35 = 5.
    assert_eq!(dk.decrypt_encoded(&c), Ok(5));
    assert!(matches!(
        ek.encrypt_plaintext(&Plaintext::Encoded(40)),
        Err(PaillierError::PlaintextOutOfRange)
    ));
}

#[test]
fn out_of_range_and_malformed_ciphertexts_are_rejected() {
    let (_ek, dk) = small_key_pair();
    // n^2 = 1225 is the first out-of-range value.
    let big = Ciphertext { value: Natural::from_u64(1225) };
    assert!(matches!(dk.decrypt(&big), Err(PaillierError::InvalidCiphertext)));
    assert!(matches!(dk.decrypt_reference(&big), Err(PaillierError::InvalidCiphertext)));
    // 5 shares a factor with n = 35, so the L-function check fails.
    let shared = Ciphertext { value: Natural::from_u64(5) };
    assert!(matches!(dk.decrypt(&shared), Err(PaillierError::InvalidCiphertext)));
    // 0 is in range but no valid encryption.
    let zero = Ciphertext { value: Natural::from_u64(0) };
    assert!(matches!(dk.decrypt(&zero), Err(PaillierError::InvalidCiphertext)));
}

#[test]
fn residue_beyond_u64_fails_encoded_decryption() {
    let (ek, dk) = generate_keys(80).expect("80-bit key generation must succeed");
    // 2^65 fits the 80-bit modulus but not a u64.
    let m = Natural::from_limbs(vec![0, 0, 2]);
    let c = ek.encrypt(&m).unwrap();
    assert!(matches!(dk.decrypt_encoded(&c), Err(PaillierError::DecodedValueOverflow)));
    let back = dk.decrypt(&c).unwrap();
    assert!(back.eq_val(&m));
}

#[test]
fn generated_key_material_is_consistent() {
    let (ek, dk) = generate_keys(64).expect("64-bit key generation must succeed");
    assert!(!dk.p.eq_val(&dk.q));
    assert!(dk.n.eq_val(&dk.p.mul_val(&dk.q)));
    assert!(dk.nn.eq_val(&dk.n.mul_val(&dk.n)));
    assert!(ek.n.eq_val(&dk.n));
    assert!(ek.g.eq_val(&dk.n.add_val(&Natural::from_u64(1))));
    assert!(ek.nn.eq_val(&dk.nn));
    // Both primes take exactly 32 bits.
    let low = Natural::power_of_two(31);
    let high = Natural::power_of_two(32);
    assert!(!dk.p.lt_val(&low) && dk.p.lt_val(&high));
    assert!(!dk.q.lt_val(&low) && dk.q.lt_val(&high));
}

#[test]
fn error_descriptions_name_each_failure() {
    assert_eq!(PaillierError::InvalidKeySize.describe(), "invalid key size");
    assert_eq!(PaillierError::KeyGenerationError.describe(), "key generation failed");
    assert_eq!(PaillierError::PlaintextOutOfRange.describe(), "plaintext out of range");
    assert_eq!(PaillierError::InvalidCiphertext.describe(), "invalid ciphertext");
    assert_eq!(PaillierError::DecodedValueOverflow.describe(), "decoded value overflow");
}
