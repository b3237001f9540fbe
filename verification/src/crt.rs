//! Correctness of the Chinese-Remainder recombination used by decryption.
//!
//! The recombination step m = mp + p * ((mq - mp) * (p^-1 mod q) mod q) is
//! proved to return exactly the one value below p*q whose residues modulo
//! p and q are mp and mq. This is why the two half-size exponentiations
//! can replace one full-size exponentiation without changing any result.

use vstd::prelude::*;
use vstd::arithmetic::div_mod::{
    lemma_mod_bound,
    lemma_mod_twice,
    lemma_mod_multiples_vanish,
    lemma_add_mod_noop_right,
    lemma_mul_mod_noop_right,
    lemma_mul_mod_noop_left,
    lemma_mod_equivalence,
    lemma_fundamental_div_mod,
};
use crate::keys::DecryptionKey;
use crate::decryption::{crt_combination, crt_decryption_of, half_residue};

verus! {

/// Two values below p*q with the same residues modulo p and modulo q are
/// equal, given a certificate that p is invertible modulo q.
proof fn lemma_equal_residues_equal(a: int, b: int, p: int, q: int, p_inv: int)
    requires
        p >= 2,
        q >= 2,
        (p * p_inv) % q == 1,
        0 <= a < p * q,
        0 <= b < p * q,
        a % p == b % p,
        a % q == b % q,
    ensures
        a == b,
{
    let d = a - b;
    lemma_mod_equivalence(a, b, p);
    lemma_mod_equivalence(a, b, q);
    lemma_fundamental_div_mod(d, p);
    let s = d / p;
    assert(d == p * s);
    assert(s % q == 0) by {
        lemma_mul_mod_noop_right(s, p * p_inv, q);
        assert(s * (p * p_inv) == (p * s) * p_inv) by (nonlinear_arith);
        lemma_mul_mod_noop_left(p * s, p_inv, q);
        assert((p * s) % q == 0);
        assert(0 * p_inv == 0) by (nonlinear_arith);
        assert(0int % q == 0) by {
            vstd::arithmetic::div_mod::lemma_small_mod(0nat, q as nat);
        }
        assert(s * ((p * p_inv) % q) == s) by (nonlinear_arith)
            requires
                (p * p_inv) % q == 1,
        ;
    }
    lemma_fundamental_div_mod(s, q);
    let w = s / q;
    assert(s == q * w);
    assert(d == p * (q * w));
    assert(w == 0) by (nonlinear_arith)
        requires
            d == p * (q * w),
            -(p * q) < d < p * q,
            p >= 2,
            q >= 2,
    ;
    assert(d == 0) by (nonlinear_arith)
        requires
            d == p * (q * w),
            w == 0,
    ;
}

/// The Chinese-Remainder recombination is lossless: for any m below p*q,
/// combining the residues m mod p and m mod q with a certified inverse of
/// p modulo q yields m itself.
pub proof fn lemma_crt_combination_reconstructs(m: nat, p: nat, q: nat, p_inv: nat)
    requires
        p >= 2,
        q >= 2,
        (p * p_inv) % q == 1,
        m < p * q,
    ensures
        crt_combination((m as int) % (p as int), (m as int) % (q as int), p, q, p_inv) == m,
{
    let pi = p as int;
    let qi = q as int;
    let vi = p_inv as int;
    let mi = m as int;
    let mp = mi % pi;
    let mq = mi % qi;
    lemma_mod_bound(mi, pi);
    lemma_mod_bound(mi, qi);
    let u = (mq + qi - (mp % qi)) % qi;
    let t = (u * vi) % qi;
    let x = mp + pi * t;
    lemma_mod_bound(mp, qi);
    lemma_mod_bound(u * vi, qi);
    assert(0 <= x < pi * qi) by (nonlinear_arith)
        requires
            0 <= mp < pi,
            0 <= t < qi,
            x == mp + pi * t,
            pi >= 2,
            qi >= 2,
    ;

    assert(x % pi == mp) by {
        lemma_mod_multiples_vanish(t, mp, pi);
        lemma_mod_twice(mi, pi);
    }

    assert(x % qi == mq) by {
        assert((pi * t) % qi == u) by {
            lemma_mul_mod_noop_right(pi, u * vi, qi);
            assert(pi * (u * vi) == (pi * vi) * u) by (nonlinear_arith);
            lemma_mul_mod_noop_left(pi * vi, u, qi);
            assert(((pi * vi) % qi) * u == u) by (nonlinear_arith)
                requires
                    (pi * vi) % qi == 1,
            ;
            lemma_mod_twice(mq + qi - (mp % qi), qi);
        }
        lemma_add_mod_noop_right(mp, pi * t, qi);
        lemma_add_mod_noop_right(mp, mq + qi - (mp % qi), qi);
        lemma_fundamental_div_mod(mp, qi);
        assert(mp + (mq + qi - (mp % qi)) == qi * (mp / qi + 1) + mq) by (nonlinear_arith)
            requires
                mp == qi * (mp / qi) + mp % qi,
        ;
        lemma_mod_multiples_vanish(mp / qi + 1, mq, qi);
        lemma_mod_twice(mi, qi);
    }

    lemma_mod_twice(mi, pi);
    lemma_mod_twice(mi, qi);
    lemma_equal_residues_equal(x, mi, pi, qi, vi);
}

/// Agreement of the two decryption paths, up to the scheme's number
/// theory: whenever the two half-residues the Chinese-Remainder path
/// computes for a ciphertext are the residues modulo p and q of a single
/// value m below n — which proper encryption guarantees — the path
/// returns exactly m, the same value the reference path recovers.
pub proof fn lemma_crt_decryption_reconstructs(dk: DecryptionKey, c: nat, m: nat)
    requires
        dk.wf(),
        m < dk.n.val(),
        half_residue(c, dk.pp.val(), dk.exp_p.val(), dk.hp.val(), dk.p.val()) == (m as int) % (
        dk.p.val() as int),
        half_residue(c, dk.qq.val(), dk.exp_q.val(), dk.hq.val(), dk.q.val()) == (m as int) % (
        dk.q.val() as int),
    ensures
        crt_decryption_of(dk, c) == m,
{
    lemma_crt_combination_reconstructs(m, dk.p.val(), dk.q.val(), dk.p_inv_q.val());
}

} // verus!
