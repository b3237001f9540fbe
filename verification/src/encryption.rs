//! Probabilistic encryption: c = g^m * r^n mod n^2, computed with the
//! g = n + 1 shortcut as (1 + m*n mod n^2) * (r^n mod n^2) mod n^2.

use vstd::prelude::*;
use vstd::arithmetic::power::pow;
use crate::bignat::{Natural, gcd_nat};
use crate::error::PaillierError;
use crate::keys::EncryptionKey;

verus! {

/// How many draws the coprime-randomness sampler may make before giving
/// up. For a well-formed modulus a non-coprime draw is overwhelmingly
/// unlikely; exhaustion signals a broken randomness source.
pub const RANDOMNESS_RETRY_BUDGET: u64 = 64;

/// A Paillier ciphertext: an element of [0, n^2). It carries no record of
/// whether it came from a raw or an encoded plaintext; the caller tracks
/// that, since decryption returns a residue modulo n.
pub struct Ciphertext {
    pub value: Natural,
}

impl Ciphertext {
    /// An identical copy of this ciphertext.
    pub fn duplicate(&self) -> (r: Ciphertext)
        ensures
            r.value.val() == self.value.val(),
    {
        Ciphertext { value: self.value.duplicate() }
    }
}

/// A plaintext in one of the two interchangeable encodings: a raw
/// arbitrary-precision residue modulo n (values at or above n wrap, by
/// design), or a bounded machine word that encryption checks against n.
pub enum Plaintext {
    Raw(Natural),
    Encoded(u64),
}

/// What encrypting plaintext m under modulus n with randomness r yields:
/// (1 + m*n mod n^2) * (r^n mod n^2) mod n^2.
pub open spec fn encryption_of(n: nat, m: nat, r: nat) -> int {
    let nn = (n * n) as int;
    ((((1 + m * n) % (n * n)) as int) * (pow(r as int, n) % nn)) % nn
}

/// Acceptable ephemeral randomness for modulus n: in [1, n) and coprime
/// to n, so that the ciphertext stays invertible in the group.
pub open spec fn valid_randomness(n: nat, r: nat) -> bool {
    1 <= r < n && gcd_nat(r, n) == 1
}

impl EncryptionKey {
    /// Encrypts with caller-supplied randomness. Deterministic: the
    /// ciphertext is exactly the scheme's formula on m and r. Values of m
    /// at or above n wrap modulo n on decryption, by design.
    pub fn encrypt_with(&self, m: &Natural, r: &Natural) -> (c: Ciphertext)
        requires
            self.wf(),
            valid_randomness(self.n.val(), r.val()),
        ensures
            c.value.val() == encryption_of(self.n.val(), m.val(), r.val()),
            c.value.val() < self.nn.val(),
    {
        proof {
            assert(self.nn.val() >= 4) by (nonlinear_arith)
                requires
                    self.n.val() >= 2,
                    self.nn.val() == self.n.val() * self.n.val(),
            ;
        }
        let one = Natural::from_u64(1);
        let gm = one.add_val(&m.mul_val(&self.n)).rem_val(&self.nn);
        let rn = r.modpow(&self.n, &self.nn);
        let c = gm.mul_val(&rn).rem_val(&self.nn);
        Ciphertext { value: c }
    }

    /// Draws ephemeral randomness for one encryption: uniform in [1, n),
    /// redrawn until coprime to n, never reused, never kept.
    pub(crate) fn sample_randomness(&self) -> (r: Result<Natural, PaillierError>)
        requires
            self.wf(),
        ensures
            r matches Ok(v) ==> valid_randomness(self.n.val(), v.val()),
            r is Err ==> r matches Err(PaillierError::KeyGenerationError),
    {
        let zero = Natural::from_u64(0);
        let one = Natural::from_u64(1);
        let mut tries: u64 = 0;
        while tries < RANDOMNESS_RETRY_BUDGET
            invariant
                self.wf(),
                zero.val() == 0,
                one.val() == 1,
            decreases RANDOMNESS_RETRY_BUDGET - tries,
        {
            let candidate = Natural::random_below(&self.n);
            if !candidate.eq_val(&zero) {
                let d = candidate.gcd_with(&self.n);
                if d.eq_val(&one) {
                    return Ok(candidate);
                }
            }
            tries = tries + 1;
        }
        Err(PaillierError::KeyGenerationError)
    }

    /// Encrypts a raw plaintext with freshly drawn randomness. The
    /// ciphertext is the scheme's formula on m and some valid randomness;
    /// because that randomness is fresh and independent per call, two
    /// encryptions of one plaintext differ with overwhelming probability.
    pub fn encrypt(&self, m: &Natural) -> (r: Result<Ciphertext, PaillierError>)
        requires
            self.wf(),
        ensures
            r matches Ok(c) ==> exists|rv: nat|
                valid_randomness(self.n.val(), rv) && c.value.val() == encryption_of(
                    self.n.val(),
                    m.val(),
                    rv,
                ),
            r is Err ==> r matches Err(PaillierError::KeyGenerationError),
    {
        let rnd = match self.sample_randomness() {
            Ok(v) => v,
            Err(e) => {
                return Err(e);
            },
        };
        let c = self.encrypt_with(m, &rnd);
        proof {
            assert(valid_randomness(self.n.val(), rnd.val()) && c.value.val() == encryption_of(
                self.n.val(),
                m.val(),
                rnd.val(),
            ));
        }
        Ok(c)
    }

    /// Encrypts a fixed-width plaintext: rejected exactly when the value
    /// is not strictly below the modulus, since such a value could not be
    /// recovered without wraparound ambiguity.
    pub fn encrypt_encoded(&self, m: u64) -> (r: Result<Ciphertext, PaillierError>)
        requires
            self.wf(),
        ensures
            r matches Err(PaillierError::PlaintextOutOfRange) <==> m >= self.n.val(),
            r matches Ok(c) ==> exists|rv: nat|
                valid_randomness(self.n.val(), rv) && c.value.val() == encryption_of(
                    self.n.val(),
                    m as nat,
                    rv,
                ),
            r is Err ==> (r matches Err(PaillierError::PlaintextOutOfRange) || r matches Err(
                PaillierError::KeyGenerationError,
            )),
    {
        let value = Natural::from_u64(m);
        if !value.lt_val(&self.n) {
            return Err(PaillierError::PlaintextOutOfRange);
        }
        self.encrypt(&value)
    }

    /// Encrypts either plaintext encoding: raw values go through
    /// unchecked, encoded values are range-checked against the modulus.
    pub fn encrypt_plaintext(&self, m: &Plaintext) -> (r: Result<Ciphertext, PaillierError>)
        requires
            self.wf(),
        ensures
            r matches Ok(c) ==> exists|rv: nat|
                valid_randomness(self.n.val(), rv) && c.value.val() == encryption_of(
                    self.n.val(),
                    plaintext_value(m),
                    rv,
                ),
            r matches Err(PaillierError::PlaintextOutOfRange) <==> (m matches Plaintext::Encoded(v)
                && v >= self.n.val()),
    {
        match m {
            Plaintext::Raw(value) => self.encrypt(value),
            Plaintext::Encoded(word) => self.encrypt_encoded(*word),
        }
    }
}

/// The residue a plaintext stands for, in either encoding.
pub open spec fn plaintext_value(m: &Plaintext) -> nat {
    match m {
        Plaintext::Raw(value) => value.val(),
        Plaintext::Encoded(word) => *word as nat,
    }
}

} // verus!
