//! Decryption. The default path works modulo p^2 and q^2 separately and
//! recombines through the Chinese Remainder Theorem; the reference path
//! computes m = L(c^lambda mod n^2) * mu mod n directly. The two agree on
//! every valid ciphertext: the Chinese-Remainder path is a performance
//! optimization, not a semantic change.

use vstd::prelude::*;
use vstd::arithmetic::power::pow;
use crate::bignat::Natural;
use crate::error::PaillierError;
use crate::keys::{DecryptionKey, l_int};
use crate::encryption::Ciphertext;

verus! {

/// The power a ciphertext is raised to on one half-size modulus:
/// (c mod p^2)^e mod p^2, for the private exponent e of that side.
pub open spec fn half_power(c: nat, pp: nat, e: nat) -> int {
    pow((c % pp) as int, e) % (pp as int)
}

/// The L-function precondition on one half-size modulus: the powered
/// ciphertext must be congruent to 1 modulo the prime, or the ciphertext
/// did not come from a proper encryption under this key.
pub open spec fn half_valid(c: nat, pp: nat, e: nat, p: nat) -> bool {
    half_power(c, pp, e) % (p as int) == 1
}

/// One half of the Chinese-Remainder decryption:
/// L(half_power) * h mod p, the plaintext's residue modulo that prime.
pub open spec fn half_residue(c: nat, pp: nat, e: nat, h: nat, p: nat) -> int {
    (l_int(half_power(c, pp, e), p as int) * h) % (p as int)
}

/// The Chinese-Remainder recombination of the two residues:
/// mp + p * ((mq - mp) * p_inv mod q), with the difference taken modulo q.
pub open spec fn crt_combination(mp: int, mq: int, p: nat, q: nat, p_inv: nat) -> int {
    mp + (p as int) * ((((mq + q - (mp % (q as int))) % (q as int)) * p_inv) % (q as int))
}

/// What the Chinese-Remainder decryption path computes for ciphertext c.
pub open spec fn crt_decryption_of(dk: DecryptionKey, c: nat) -> int {
    crt_combination(
        half_residue(c, dk.pp.val(), dk.exp_p.val(), dk.hp.val(), dk.p.val()),
        half_residue(c, dk.qq.val(), dk.exp_q.val(), dk.hq.val(), dk.q.val()),
        dk.p.val(),
        dk.q.val(),
        dk.p_inv_q.val(),
    )
}

/// The full-size power of the reference decryption path: c^lambda mod n^2.
pub open spec fn reference_power(c: nat, nn: nat, lambda: nat) -> int {
    pow(c as int, lambda) % (nn as int)
}

/// The L-function precondition of the reference path.
pub open spec fn reference_valid(c: nat, nn: nat, lambda: nat, n: nat) -> bool {
    reference_power(c, nn, lambda) % (n as int) == 1
}

/// What the reference decryption path computes for ciphertext c:
/// L(c^lambda mod n^2) * mu mod n.
pub open spec fn reference_decryption_of(dk: DecryptionKey, c: nat) -> int {
    (l_int(reference_power(c, dk.nn.val(), dk.lambda.val()), dk.n.val() as int) * dk.mu.val()) % (
    dk.n.val() as int)
}

impl DecryptionKey {
    /// Decrypts through the Chinese Remainder Theorem: two half-size
    /// exponentiations recombined. Fails exactly on ciphertexts outside
    /// [0, n^2) and on those whose powered value breaks the L-function
    /// precondition on either side — a corrupted or foreign ciphertext is
    /// reported, never silently mis-decrypted.
    pub fn decrypt(&self, c: &Ciphertext) -> (r: Result<Natural, PaillierError>)
        requires
            self.wf(),
        ensures
            r is Err <==> (c.value.val() >= self.nn.val() || !half_valid(
                c.value.val(),
                self.pp.val(),
                self.exp_p.val(),
                self.p.val(),
            ) || !half_valid(c.value.val(), self.qq.val(), self.exp_q.val(), self.q.val())),
            r is Err ==> r matches Err(PaillierError::InvalidCiphertext),
            r matches Ok(m) ==> m.val() == crt_decryption_of(*self, c.value.val()) && m.val()
                < self.n.val(),
    {
        proof {
            assert(self.pp.val() >= 9 && self.qq.val() >= 9 && self.n.val() >= 9) by (
            nonlinear_arith)
                requires
                    self.p.val() >= 3,
                    self.q.val() >= 3,
                    self.pp.val() == self.p.val() * self.p.val(),
                    self.qq.val() == self.q.val() * self.q.val(),
                    self.n.val() == self.p.val() * self.q.val(),
            ;
        }
        let one = Natural::from_u64(1);
        if !c.value.lt_val(&self.nn) {
            return Err(PaillierError::InvalidCiphertext);
        }

        let cp = c.value.rem_val(&self.pp);
        let xp = cp.modpow(&self.exp_p, &self.pp);
        if !xp.rem_val(&self.p).eq_val(&one) {
            return Err(PaillierError::InvalidCiphertext);
        }
        proof {
            assert(xp.val() >= 1) by {
                if xp.val() == 0 {
                    vstd::arithmetic::div_mod::lemma_small_mod(0nat, self.p.val());
                }
            }
        }
        let mp = xp.sub_val(&one).div_val(&self.p).mul_val(&self.hp).rem_val(&self.p);

        let cq = c.value.rem_val(&self.qq);
        let xq = cq.modpow(&self.exp_q, &self.qq);
        if !xq.rem_val(&self.q).eq_val(&one) {
            return Err(PaillierError::InvalidCiphertext);
        }
        proof {
            assert(xq.val() >= 1) by {
                if xq.val() == 0 {
                    vstd::arithmetic::div_mod::lemma_small_mod(0nat, self.q.val());
                }
            }
        }
        let mq = xq.sub_val(&one).div_val(&self.q).mul_val(&self.hq).rem_val(&self.q);

        let diff = mq.add_val(&self.q).sub_val(&mp.rem_val(&self.q));
        let t = diff.rem_val(&self.q).mul_val(&self.p_inv_q).rem_val(&self.q);
        let m = mp.add_val(&self.p.mul_val(&t));
        proof {
            assert(m.val() < self.n.val()) by (nonlinear_arith)
                requires
                    m.val() == mp.val() + self.p.val() * t.val(),
                    mp.val() < self.p.val(),
                    t.val() < self.q.val(),
                    self.n.val() == self.p.val() * self.q.val(),
            ;
        }
        Ok(m)
    }

    /// Decrypts by the reference (non-Chinese-Remainder) formula
    /// m = L(c^lambda mod n^2) * mu mod n. Fails exactly on ciphertexts
    /// outside [0, n^2) and on those breaking the L-function precondition.
    pub fn decrypt_reference(&self, c: &Ciphertext) -> (r: Result<Natural, PaillierError>)
        requires
            self.wf(),
        ensures
            r is Err <==> (c.value.val() >= self.nn.val() || !reference_valid(
                c.value.val(),
                self.nn.val(),
                self.lambda.val(),
                self.n.val(),
            )),
            r is Err ==> r matches Err(PaillierError::InvalidCiphertext),
            r matches Ok(m) ==> m.val() == reference_decryption_of(*self, c.value.val()) && m.val()
                < self.n.val(),
    {
        proof {
            assert(self.nn.val() >= 81 && self.n.val() >= 9) by (nonlinear_arith)
                requires
                    self.p.val() >= 3,
                    self.q.val() >= 3,
                    self.n.val() == self.p.val() * self.q.val(),
                    self.nn.val() == self.n.val() * self.n.val(),
            ;
        }
        let one = Natural::from_u64(1);
        if !c.value.lt_val(&self.nn) {
            return Err(PaillierError::InvalidCiphertext);
        }
        let x = c.value.modpow(&self.lambda, &self.nn);
        if !x.rem_val(&self.n).eq_val(&one) {
            return Err(PaillierError::InvalidCiphertext);
        }
        proof {
            assert(x.val() >= 1) by {
                if x.val() == 0 {
                    vstd::arithmetic::div_mod::lemma_small_mod(0nat, self.n.val());
                }
            }
        }
        let m = x.sub_val(&one).div_val(&self.n).mul_val(&self.mu).rem_val(&self.n);
        Ok(m)
    }

    /// Decrypts to the fixed-width encoding. The residue modulo n is
    /// computed as in `decrypt`; a residue that does not fit the target
    /// type signals a key or encoding mismatch and is reported, never
    /// truncated.
    pub fn decrypt_encoded(&self, c: &Ciphertext) -> (r: Result<u64, PaillierError>)
        requires
            self.wf(),
        ensures
            r matches Err(PaillierError::InvalidCiphertext) <==> (c.value.val() >= self.nn.val()
                || !half_valid(c.value.val(), self.pp.val(), self.exp_p.val(), self.p.val())
                || !half_valid(c.value.val(), self.qq.val(), self.exp_q.val(), self.q.val())),
            r matches Err(PaillierError::DecodedValueOverflow) <==> (c.value.val() < self.nn.val()
                && half_valid(c.value.val(), self.pp.val(), self.exp_p.val(), self.p.val())
                && half_valid(c.value.val(), self.qq.val(), self.exp_q.val(), self.q.val())
                && crt_decryption_of(*self, c.value.val()) > u64::MAX),
            r matches Ok(v) ==> v == crt_decryption_of(*self, c.value.val()),
    {
        let m = match self.decrypt(c) {
            Ok(v) => v,
            Err(e) => {
                return Err(e);
            },
        };
        match m.to_u64() {
            Some(v) => Ok(v),
            None => Err(PaillierError::DecodedValueOverflow),
        }
    }
}

} // verus!
