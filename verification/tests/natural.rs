//! The arithmetic wrappers on concrete values: each test would fail if a
//! wrapper handed an argument back unchanged.

use paillier_core::bignat::Natural;

#[test]
fn word_round_trip_and_limbs() {
    assert_eq!(Natural::from_u64(0).to_u64(), Some(0));
    assert_eq!(Natural::from_u64(u64::MAX).to_u64(), Some(u64::MAX));
    // Little-endian base-2^32 digits: [0, 1] is 2^32.
    assert_eq!(Natural::from_limbs(vec![0, 1]).to_u64(), Some(1 << 32));
    assert_eq!(Natural::from_u64(1 << 32).limbs().as_slice(), &[0, 1]);
    // A value of three digits exceeds u64.
    assert_eq!(Natural::from_limbs(vec![0, 0, 1]).to_u64(), None);
    let x = Natural::from_u64(987654321);
    assert_eq!(x.duplicate().to_u64(), Some(987654321));
}

#[test]
fn ring_operations_on_concrete_values() {
    let a = Natural::from_u64(100);
    let b = Natural::from_u64(7);
    assert_eq!(a.add_val(&b).to_u64(), Some(107));
    assert_eq!(a.sub_val(&b).to_u64(), Some(93));
    assert_eq!(a.mul_val(&b).to_u64(), Some(700));
    assert_eq!(a.div_val(&b).to_u64(), Some(14));
    assert_eq!(a.rem_val(&b).to_u64(), Some(2));
    assert!(b.lt_val(&a));
    assert!(!a.lt_val(&b));
    assert!(a.eq_val(&Natural::from_u64(100)));
    assert!(!a.eq_val(&b));
}

#[test]
fn carry_across_the_digit_boundary() {
    let max32 = Natural::from_u64(0xFFFF_FFFF);
    let one = Natural::from_u64(1);
    let sum = max32.add_val(&one);
    assert_eq!(sum.to_u64(), Some(0x1_0000_0000));
    assert_eq!(sum.limbs().as_slice(), &[0, 1]);
}

#[test]
fn modular_operations_on_concrete_values() {
    let base = Natural::from_u64(4);
    let exp = Natural::from_u64(13);
    let modulus = Natural::from_u64(497);
    // 4^13 mod 497 = 445.
    assert_eq!(base.modpow(&exp, &modulus).to_u64(), Some(445));
    // 3^-1 mod 10 = 7; 4 has no inverse mod 10.
    let ten = Natural::from_u64(10);
    assert_eq!(Natural::from_u64(3).modinv(&ten).map(|v| v.to_u64()), Some(Some(7)));
    assert!(Natural::from_u64(4).modinv(&ten).is_none());
    // gcd(48, 18) = 6.
    assert_eq!(Natural::from_u64(48).gcd_with(&Natural::from_u64(18)).to_u64(), Some(6));
    assert_eq!(Natural::power_of_two(40).to_u64(), Some(1 << 40));
}

#[test]
fn random_draws_respect_the_bound() {
    let bound = Natural::from_u64(1000);
    for _ in 0..50 {
        let r = Natural::random_below(&bound);
        assert!(r.lt_val(&bound));
    }
}

#[test]
fn primality_verdicts_on_known_values() {
    assert!(Natural::from_u64(11).probably_prime());
    assert!(Natural::from_u64(65537).probably_prime());
    assert!(Natural::from_u64(4294967291).probably_prime());
    assert!(!Natural::from_u64(1).probably_prime());
    assert!(!Natural::from_u64(9).probably_prime());
    assert!(!Natural::from_u64(4294967295).probably_prime());
}
