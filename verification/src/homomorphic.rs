//! The additive-homomorphic ciphertext operations. All three work from
//! the public key's values alone and never touch private key material:
//! that independence is the scheme's defining homomorphic property.

use vstd::prelude::*;
use vstd::arithmetic::power::pow;
use crate::bignat::Natural;
use crate::error::PaillierError;
use crate::keys::EncryptionKey;
use crate::encryption::{Ciphertext, valid_randomness};

verus! {

/// What homomorphic addition yields: c1 * c2 mod n^2, which decrypts to
/// the sum of the two plaintexts modulo n.
pub open spec fn homomorphic_sum_of(nn: nat, c1: nat, c2: nat) -> nat {
    (c1 * c2) % nn
}

/// What scalar multiplication yields: c^k mod n^2, which decrypts to
/// k times the plaintext modulo n.
pub open spec fn scalar_product_of(nn: nat, c: nat, k: nat) -> int {
    pow(c as int, k) % (nn as int)
}

/// What re-randomization yields for fresh randomness r: c * r^n mod n^2,
/// a ciphertext for the same plaintext, unlinkable to c without the
/// private key.
pub open spec fn rerandomization_of(n: nat, c: nat, r: nat) -> int {
    let nn = (n * n) as int;
    ((c as int) * (pow(r as int, n) % nn)) % nn
}

impl EncryptionKey {
    /// Adds two ciphertexts homomorphically: the product modulo n^2.
    pub fn add(&self, c1: &Ciphertext, c2: &Ciphertext) -> (r: Ciphertext)
        requires
            self.wf(),
        ensures
            r.value.val() == homomorphic_sum_of(self.nn.val(), c1.value.val(), c2.value.val()),
            r.value.val() < self.nn.val(),
    {
        proof {
            lemma_square_pos(self.n.val(), self.nn.val());
        }
        Ciphertext { value: c1.value.mul_val(&c2.value).rem_val(&self.nn) }
    }

    /// Multiplies the plaintext under a ciphertext by a scalar: the
    /// ciphertext raised to the scalar, modulo n^2.
    pub fn scalar_multiply(&self, c: &Ciphertext, k: &Natural) -> (r: Ciphertext)
        requires
            self.wf(),
        ensures
            r.value.val() == scalar_product_of(self.nn.val(), c.value.val(), k.val()),
            r.value.val() < self.nn.val(),
    {
        proof {
            lemma_square_pos(self.n.val(), self.nn.val());
        }
        Ciphertext { value: c.value.modpow(k, &self.nn) }
    }

    /// Re-randomizes a ciphertext: multiplies in an encryption of zero
    /// with fresh randomness, so the result decrypts identically but is
    /// unlinkable to the input without the private key.
    pub fn rerandomize(&self, c: &Ciphertext) -> (r: Result<Ciphertext, PaillierError>)
        requires
            self.wf(),
        ensures
            r matches Ok(rc) ==> exists|rv: nat|
                valid_randomness(self.n.val(), rv) && rc.value.val() == rerandomization_of(
                    self.n.val(),
                    c.value.val(),
                    rv,
                ),
            r matches Ok(rc) ==> rc.value.val() < self.nn.val(),
            r is Err ==> r matches Err(PaillierError::KeyGenerationError),
    {
        proof {
            lemma_square_pos(self.n.val(), self.nn.val());
        }
        let rnd = match self.sample_randomness() {
            Ok(v) => v,
            Err(e) => {
                return Err(e);
            },
        };
        let rn = rnd.modpow(&self.n, &self.nn);
        let value = c.value.mul_val(&rn).rem_val(&self.nn);
        proof {
            assert(valid_randomness(self.n.val(), rnd.val()) && value.val() == rerandomization_of(
                self.n.val(),
                c.value.val(),
                rnd.val(),
            ));
        }
        Ok(Ciphertext { value })
    }
}

/// The square of a modulus of at least two is at least four.
proof fn lemma_square_pos(n: nat, nn: nat)
    requires
        n >= 2,
        nn == n * n,
    ensures
        nn >= 4,
{
    assert(nn >= 4) by (nonlinear_arith)
        requires
            n >= 2,
            nn == n * n,
    ;
}

} // verus!
