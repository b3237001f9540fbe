//! Arbitrary-precision natural numbers.
//!
//! `Natural` carries the base-2^32 little-endian digits of a natural number
//! in a plain `Vec<u32>`, so that every value has an exact mathematical
//! meaning (`val`). The arithmetic itself is delegated to the `num-bigint`
//! family of crates through trusted wrappers; each wrapper converts the
//! digits to a `BigUint`, makes one library call, and converts back.

use vstd::prelude::*;
use vstd::arithmetic::power::pow;
use vstd::arithmetic::power2::pow2;

verus! {

/// Euclid's greatest common divisor on naturals.
pub open spec fn gcd_nat(a: nat, b: nat) -> nat
    decreases b,
{
    if b == 0 {
        a
    } else {
        gcd_nat(b, a % b)
    }
}

/// The natural number denoted by a little-endian sequence of base-2^32 digits.
pub open spec fn limbs_val(s: Seq<u32>) -> nat
    decreases s.len(),
{
    if s.len() == 0 {
        0
    } else {
        s[0] as nat + 0x1_0000_0000 * limbs_val(s.subrange(1, s.len() as int))
    }
}

/// An arbitrary-precision natural number, stored as base-2^32 digits,
/// least significant first. Trailing zero digits are allowed and do not
/// change the value.
pub struct Natural {
    limbs: Vec<u32>,
}

impl Natural {
    /// The mathematical value of this number.
    pub closed spec fn val(&self) -> nat {
        limbs_val(self.limbs@)
    }

    /// Builds a number from its base-2^32 little-endian digits.
    pub fn from_limbs(limbs: Vec<u32>) -> (r: Natural)
        ensures
            r.val() == limbs_val(limbs@),
    {
        Natural { limbs }
    }

    /// The base-2^32 little-endian digits of this number.
    pub fn limbs(&self) -> (r: &Vec<u32>)
        ensures
            limbs_val(r@) == self.val(),
    {
        &self.limbs
    }

    /// An identical copy of this number.
    pub fn duplicate(&self) -> (r: Natural)
        ensures
            r.val() == self.val(),
    {
        let mut copy: Vec<u32> = Vec::new();
        let mut i: usize = 0;
        while i < self.limbs.len()
            invariant
                i <= self.limbs.len(),
                copy@ == self.limbs@.subrange(0, i as int),
            decreases self.limbs.len() - i,
        {
            copy.push(self.limbs[i]);
            i = i + 1;
        }
        proof {
            assert(copy@ =~= self.limbs@);
        }
        Natural { limbs: copy }
    }

    /// Relies on `num_bigint::BigUint::from` for `u64`: the number with the
    /// value of the given machine word.
    #[verifier::external_body]
    pub fn from_u64(x: u64) -> (r: Natural)
        ensures
            r.val() == x,
    {
        let b = num_bigint::BigUint::from(x);
        Natural { limbs: b.to_u32_digits() }
    }

    /// Relies on `num_traits::ToPrimitive::to_u64` for `BigUint`: `Some`
    /// exactly when the value fits in a `u64`, and then the value itself.
    #[verifier::external_body]
    pub fn to_u64(&self) -> (r: Option<u64>)
        ensures
            r is Some <==> self.val() <= u64::MAX,
            r matches Some(v) ==> v == self.val(),
    {
        let b = num_bigint::BigUint::from_slice(&self.limbs);
        num_traits::ToPrimitive::to_u64(&b)
    }

    /// Relies on `PartialEq` for `BigUint`: equality of values.
    #[verifier::external_body]
    pub fn eq_val(&self, other: &Natural) -> (r: bool)
        ensures
            r <==> self.val() == other.val(),
    {
        let a = num_bigint::BigUint::from_slice(&self.limbs);
        let b = num_bigint::BigUint::from_slice(&other.limbs);
        a == b
    }

    /// Relies on `Ord` for `BigUint`: order of values.
    #[verifier::external_body]
    pub fn lt_val(&self, other: &Natural) -> (r: bool)
        ensures
            r <==> self.val() < other.val(),
    {
        let a = num_bigint::BigUint::from_slice(&self.limbs);
        let b = num_bigint::BigUint::from_slice(&other.limbs);
        a < b
    }

    /// Relies on `Add` for `BigUint`: the sum of the two values.
    #[verifier::external_body]
    pub fn add_val(&self, other: &Natural) -> (r: Natural)
        ensures
            r.val() == self.val() + other.val(),
    {
        let a = num_bigint::BigUint::from_slice(&self.limbs);
        let b = num_bigint::BigUint::from_slice(&other.limbs);
        Natural { limbs: (a + b).to_u32_digits() }
    }

    /// Relies on `Sub` for `BigUint`: the difference of the two values.
    /// `BigUint` subtraction panics on underflow, which the precondition
    /// rules out.
    #[verifier::external_body]
    pub fn sub_val(&self, other: &Natural) -> (r: Natural)
        requires
            other.val() <= self.val(),
        ensures
            r.val() == self.val() - other.val(),
    {
        let a = num_bigint::BigUint::from_slice(&self.limbs);
        let b = num_bigint::BigUint::from_slice(&other.limbs);
        Natural { limbs: (a - b).to_u32_digits() }
    }

    /// Relies on `Mul` for `BigUint`: the product of the two values.
    #[verifier::external_body]
    pub fn mul_val(&self, other: &Natural) -> (r: Natural)
        ensures
            r.val() == self.val() * other.val(),
    {
        let a = num_bigint::BigUint::from_slice(&self.limbs);
        let b = num_bigint::BigUint::from_slice(&other.limbs);
        Natural { limbs: (a * b).to_u32_digits() }
    }

    /// Relies on `Div` for `BigUint`: the quotient, rounded towards zero,
    /// which on naturals is Euclidean division. Division by zero panics,
    /// which the precondition rules out.
    #[verifier::external_body]
    pub fn div_val(&self, other: &Natural) -> (r: Natural)
        requires
            other.val() >= 1,
        ensures
            r.val() == self.val() / other.val(),
    {
        let a = num_bigint::BigUint::from_slice(&self.limbs);
        let b = num_bigint::BigUint::from_slice(&other.limbs);
        Natural { limbs: (a / b).to_u32_digits() }
    }

    /// Relies on `Rem` for `BigUint`: the remainder of Euclidean division.
    /// Remainder by zero panics, which the precondition rules out.
    #[verifier::external_body]
    pub fn rem_val(&self, other: &Natural) -> (r: Natural)
        requires
            other.val() >= 1,
        ensures
            r.val() == self.val() % other.val(),
    {
        let a = num_bigint::BigUint::from_slice(&self.limbs);
        let b = num_bigint::BigUint::from_slice(&other.limbs);
        Natural { limbs: (a % b).to_u32_digits() }
    }
    /// Relies on `num_bigint::BigUint::modpow`: `self ^ exponent % modulus`.
    /// It panics on a zero modulus; for a zero exponent it returns one
    /// unreduced, so the trivial modulus of one is ruled out as well.
    #[verifier::external_body]
    pub fn modpow(&self, exponent: &Natural, modulus: &Natural) -> (r: Natural)
        requires
            modulus.val() >= 2,
        ensures
            r.val() == pow(self.val() as int, exponent.val() as nat) % (modulus.val() as int),
    {
        let b = num_bigint::BigUint::from_slice(&self.limbs);
        let e = num_bigint::BigUint::from_slice(&exponent.limbs);
        let m = num_bigint::BigUint::from_slice(&modulus.limbs);
        Natural { limbs: b.modpow(&e, &m).to_u32_digits() }
    }

    /// Relies on `num_bigint::BigUint::modinv`: the inverse in
    /// `[0, modulus)`, present exactly when `self` and the modulus are
    /// coprime. It panics on a zero modulus; a modulus of one would make
    /// the stated congruence vacuous, so both are ruled out.
    #[verifier::external_body]
    pub fn modinv(&self, modulus: &Natural) -> (r: Option<Natural>)
        requires
            modulus.val() >= 2,
        ensures
            r is Some <==> gcd_nat(self.val(), modulus.val()) == 1,
            r matches Some(v) ==> v.val() < modulus.val() && (self.val() * v.val())
                % modulus.val() == 1,
    {
        let b = num_bigint::BigUint::from_slice(&self.limbs);
        let m = num_bigint::BigUint::from_slice(&modulus.limbs);
        b.modinv(&m).map(|v| Natural { limbs: v.to_u32_digits() })
    }

    /// Relies on `num_integer::Integer::gcd` for `BigUint`: the greatest
    /// common divisor of the two values.
    #[verifier::external_body]
    pub fn gcd_with(&self, other: &Natural) -> (r: Natural)
        ensures
            r.val() == gcd_nat(self.val(), other.val()),
    {
        let a = num_bigint::BigUint::from_slice(&self.limbs);
        let b = num_bigint::BigUint::from_slice(&other.limbs);
        Natural { limbs: num_integer::Integer::gcd(&a, &b).to_u32_digits() }
    }

    /// Relies on `Shl` for `BigUint`: one shifted left by `bits`, that is,
    /// two to the power `bits`.
    #[verifier::external_body]
    pub fn power_of_two(bits: u64) -> (r: Natural)
        ensures
            r.val() == pow2(bits as nat),
    {
        let one = num_bigint::BigUint::from(1u32);
        Natural { limbs: (one << bits).to_u32_digits() }
    }

    /// Relies on `num_bigint::RandBigInt::gen_biguint_below` over the
    /// thread-local cryptographically secure generator: a value below the
    /// bound. The draw is random; nothing beyond the bound is promised.
    /// It panics on a zero bound, which the precondition rules out.
    #[verifier::external_body]
    pub fn random_below(bound: &Natural) -> (r: Natural)
        requires
            bound.val() >= 1,
        ensures
            r.val() < bound.val(),
    {
        let b = num_bigint::BigUint::from_slice(&bound.limbs);
        let mut rng = rand::thread_rng();
        let x = num_bigint::RandBigInt::gen_biguint_below(&mut rng, &b);
        Natural { limbs: x.to_u32_digits() }
    }

    /// Relies on `glass_pumpkin::prime::check`: a probabilistic primality
    /// test (trial division, Fermat, Miller-Rabin) drawing its witnesses
    /// from the operating system's randomness. Its verdict is
    /// probabilistic, so nothing is promised of the result.
    #[verifier::external_body]
    pub fn probably_prime(&self) -> bool {
        let b = num_bigint::BigUint::from_slice(&self.limbs);
        glass_pumpkin::prime::check(&b)
    }
}

} // verus!
