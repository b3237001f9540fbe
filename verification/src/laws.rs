//! The algebraic laws of the scheme, proved from the contracts.
//!
//! Every law below reduces decryption of a ciphertext of the shape
//! (1 + a*n) * s mod n^2 to the residue a mod n. The single
//! number-theoretic fact taken as a hypothesis rather than proved is
//! Carmichael's theorem for n^2 — `randomness_cancels`: randomness
//! coprime to n satisfies r^(n*lambda) ≡ 1 (mod n^2). Everything else —
//! the binomial collapse of (1 + a*n)^k, the L-function arithmetic, and
//! the role of mu — is proved outright.

use vstd::prelude::*;
use vstd::arithmetic::power::{
    pow,
    lemma_pow0,
    lemma1_pow,
    lemma_pow_multiplies,
    lemma_pow_distributes,
    lemma_pow_mod_noop,
};
use vstd::arithmetic::div_mod::{
    lemma_mod_bound,
    lemma_mod_twice,
    lemma_small_mod,
    lemma_mod_multiples_vanish,
    lemma_mul_mod_noop_left,
    lemma_mul_mod_noop_right,
    lemma_mul_mod_noop,
    lemma_div_multiples_vanish,
    lemma_div_multiples_vanish_fancy,
    lemma_truncate_middle,
    lemma_mod_breakdown,
};
use crate::keys::{DecryptionKey, l_int, mu_base};
use crate::encryption::encryption_of;
use crate::decryption::{
    reference_valid,
    reference_decryption_of,
    reference_power,
    half_power,
    half_valid,
    half_residue,
    crt_decryption_of,
};
use crate::homomorphic::{homomorphic_sum_of, scalar_product_of, rerandomization_of};
use crate::crt::lemma_crt_decryption_reconstructs;

verus! {

/// Carmichael's theorem for n^2, stated of one value: r^(n*lambda) is
/// congruent to 1 modulo n^2. It holds for every r coprime to n when
/// lambda is Carmichael's function of n; that is the number theory the
/// laws below assume.
pub open spec fn randomness_cancels(n: nat, lambda: nat, r: nat) -> bool {
    pow(r as int, (n * lambda) as nat) % ((n * n) as int) == 1
}

/// The binomial collapse: modulo n^2, every power of 1 + a*n stays of
/// that shape, (1 + a*n)^k ≡ 1 + a*k*n.
proof fn lemma_binomial_collapse(n: nat, a: nat, k: nat)
    requires
        n >= 2,
    ensures
        pow((1 + a * n) as int, k) % ((n * n) as int) == ((1 + a * k * n) as int) % ((n * n) as int),
    decreases k,
{
    let g = (1 + a * n) as int;
    let nn = (n * n) as int;
    assert(nn >= 4) by (nonlinear_arith)
        requires
            n >= 2,
            nn == (n * n) as int,
    ;
    if k == 0 {
        lemma_pow0(g);
        assert(a * 0 * n == 0) by (nonlinear_arith);
    } else {
        let j = (k - 1) as nat;
        lemma_binomial_collapse(n, a, j);
        assert(pow(g, k) == g * pow(g, j)) by {
            reveal(pow);
        }
        lemma_mul_mod_noop_right(g, pow(g, j), nn);
        lemma_mul_mod_noop_right(g, (1 + a * j * n) as int, nn);
        assert(g * (1 + a * j * n) == nn * (a * a * j) + (1 + a * k * n)) by (nonlinear_arith)
            requires
                g == 1 + a * n,
                nn == n * n,
                j == k - 1,
                k >= 1,
        ;
        lemma_mod_multiples_vanish((a * a * j) as int, (1 + a * k * n) as int, nn);
    }
}

/// The closed form of L(g^lambda mod n^2) that mu inverts is simply
/// lambda mod n.
proof fn lemma_mu_base_is_lambda_mod_n(lambda: nat, n: nat)
    requires
        n >= 2,
    ensures
        mu_base(lambda, n) == lambda % n,
{
    lemma_truncate_middle(lambda as int, n as int, n as int);
    assert(n * lambda == lambda * n) by (nonlinear_arith);
    lemma_div_multiples_vanish((lambda % n) as int, n as int);
}

/// The heart of every law: decrypting any value of the shape
/// (1 + a*n) * s mod n^2, where s^lambda ≡ 1 (mod n^2), passes the
/// L-function check and recovers a mod n.
proof fn lemma_reference_decrypts_standard_form(dk: DecryptionKey, c: nat, a: nat, s: nat)
    requires
        dk.wf(),
        c == (((1 + a * dk.n.val()) * s) as int) % (dk.nn.val() as int),
        pow(s as int, dk.lambda.val()) % (dk.nn.val() as int) == 1,
    ensures
        reference_valid(c, dk.nn.val(), dk.lambda.val(), dk.n.val()),
        reference_decryption_of(dk, c) == a % dk.n.val(),
{
    let n = dk.n.val();
    let nn = dk.nn.val() as int;
    let lambda = dk.lambda.val();
    let mu = dk.mu.val();
    let big_a = (1 + a * n) as int;
    assert(n >= 9 && nn >= 81) by (nonlinear_arith)
        requires
            dk.p.val() >= 3,
            dk.q.val() >= 3,
            n == dk.p.val() * dk.q.val(),
            nn == n * n,
    ;

    // c^lambda mod n^2 collapses to (1 + a*lambda*n) mod n^2.
    let x = reference_power(c, dk.nn.val(), lambda);
    assert(x == ((1 + a * lambda * n) as int) % nn) by {
        lemma_pow_mod_noop(big_a * s, lambda, nn);
        lemma_pow_distributes(big_a, s as int, lambda);
        lemma_mul_mod_noop(pow(big_a, lambda), pow(s as int, lambda), nn);
        assert((pow(big_a, lambda) % nn) * 1 == pow(big_a, lambda) % nn);
        lemma_mod_twice(pow(big_a, lambda), nn);
        lemma_binomial_collapse(n, a, lambda);
    }

    // The collapsed power splits as n * ((a*lambda) mod n) + 1.
    let w = (1 + a * lambda * n) as int;
    assert(w == (n as int) * ((a * lambda) as int) + 1) by (nonlinear_arith)
        requires
            w == (1 + a * lambda * n) as int,
    ;
    lemma_div_multiples_vanish_fancy((a * lambda) as int, 1, n as int);
    lemma_mod_multiples_vanish((a * lambda) as int, 1, n as int);
    lemma_small_mod(1, n);
    lemma_mod_breakdown(w, n as int, n as int);
    assert(x == (n as int) * (((a * lambda) as int) % (n as int)) + 1);

    // So the L-function check passes...
    assert(x % (n as int) == 1) by {
        lemma_mod_multiples_vanish((((a * lambda) as int) % (n as int)), 1, n as int);
        lemma_small_mod(1, n);
    }

    // ...and L(x) is (a*lambda) mod n.
    assert(l_int(x, n as int) == ((a * lambda) as int) % (n as int)) by {
        lemma_div_multiples_vanish((((a * lambda) as int) % (n as int)), n as int);
    }

    // mu inverts lambda mod n, so the residue a mod n comes back.
    assert((lambda * mu) % n == 1) by {
        lemma_mu_base_is_lambda_mod_n(lambda, n);
        lemma_mul_mod_noop_left(lambda as int, mu as int, n as int);
    }
    assert(reference_decryption_of(dk, c) == a % n) by {
        lemma_mul_mod_noop_left((a * lambda) as int, mu as int, n as int);
        assert(a * lambda * mu == a * (lambda * mu)) by (nonlinear_arith);
        lemma_mul_mod_noop_right(a as int, (lambda * mu) as int, n as int);
        assert((a as int) * 1 == a as int);
        lemma_mod_twice(a as int, n as int);
    }
}

/// The factor a given randomness contributes to a ciphertext:
/// r^n mod n^2.
pub open spec fn randomness_factor(n: nat, r: nat) -> nat {
    (pow(r as int, n) % ((n * n) as int)) as nat
}

/// An encryption is exactly (1 + m*n) * (r^n mod n^2) mod n^2, and lies
/// in [0, n^2).
proof fn lemma_encryption_standard_form(n: nat, m: nat, r: nat)
    requires
        n >= 2,
    ensures
        encryption_of(n, m, r) == (((1 + m * n) * randomness_factor(n, r)) as int) % ((n
            * n) as int),
        0 <= encryption_of(n, m, r) < ((n * n) as int),
{
    let nn = (n * n) as int;
    assert(nn >= 4) by (nonlinear_arith)
        requires
            n >= 2,
            nn == (n * n) as int,
    ;
    lemma_mod_bound(pow(r as int, n), nn);
    lemma_mul_mod_noop_left((1 + m * n) as int, randomness_factor(n, r) as int, nn);
    lemma_mod_bound(((1 + m * n) * randomness_factor(n, r)) as int, nn);
}

/// If the randomness cancels, so does the factor it contributes:
/// (r^n mod n^2)^lambda ≡ 1 (mod n^2).
proof fn lemma_factor_cancels(n: nat, lambda: nat, r: nat)
    requires
        n >= 2,
        randomness_cancels(n, lambda, r),
    ensures
        pow(randomness_factor(n, r) as int, lambda) % ((n * n) as int) == 1,
{
    let nn = (n * n) as int;
    assert(nn >= 4) by (nonlinear_arith)
        requires
            n >= 2,
            nn == (n * n) as int,
    ;
    lemma_mod_bound(pow(r as int, n), nn);
    lemma_pow_mod_noop(pow(r as int, n), lambda, nn);
    lemma_pow_multiplies(r as int, n, lambda);
}

/// A product of two cancelling factors cancels.
proof fn lemma_product_cancels(n: nat, lambda: nat, s1: nat, s2: nat)
    requires
        n >= 2,
        pow(s1 as int, lambda) % ((n * n) as int) == 1,
        pow(s2 as int, lambda) % ((n * n) as int) == 1,
    ensures
        pow((s1 * s2) as int, lambda) % ((n * n) as int) == 1,
{
    let nn = (n * n) as int;
    assert(nn >= 4) by (nonlinear_arith)
        requires
            n >= 2,
            nn == (n * n) as int,
    ;
    lemma_pow_distributes(s1 as int, s2 as int, lambda);
    lemma_mul_mod_noop(pow(s1 as int, lambda), pow(s2 as int, lambda), nn);
    lemma_small_mod(1, (n * n) as nat);
}

/// The central correctness law, round trip: for every plaintext m below
/// n and every randomness whose Carmichael power cancels, decrypting the
/// encryption of m returns m itself, and the ciphertext passes the
/// L-function check.
pub proof fn lemma_round_trip(dk: DecryptionKey, m: nat, r: nat)
    requires
        dk.wf(),
        m < dk.n.val(),
        randomness_cancels(dk.n.val(), dk.lambda.val(), r),
    ensures
        0 <= encryption_of(dk.n.val(), m, r) < dk.nn.val(),
        reference_valid(
            encryption_of(dk.n.val(), m, r) as nat,
            dk.nn.val(),
            dk.lambda.val(),
            dk.n.val(),
        ),
        reference_decryption_of(dk, encryption_of(dk.n.val(), m, r) as nat) == m,
{
    let n = dk.n.val();
    let lambda = dk.lambda.val();
    assert(n >= 9 && dk.nn.val() == n * n) by (nonlinear_arith)
        requires
            dk.p.val() >= 3,
            dk.q.val() >= 3,
            n == dk.p.val() * dk.q.val(),
            dk.nn.val() == n * n,
    ;
    lemma_encryption_standard_form(n, m, r);
    lemma_factor_cancels(n, lambda, r);
    lemma_reference_decrypts_standard_form(
        dk,
        encryption_of(n, m, r) as nat,
        m,
        randomness_factor(n, r),
    );
    lemma_small_mod(m, n);
}

/// Homomorphic addition: the product of two encryptions decrypts to the
/// sum of the two plaintexts modulo n, for any plaintexts and any
/// randomness whose Carmichael powers cancel.
pub proof fn lemma_homomorphic_addition(dk: DecryptionKey, m1: nat, m2: nat, r1: nat, r2: nat)
    requires
        dk.wf(),
        randomness_cancels(dk.n.val(), dk.lambda.val(), r1),
        randomness_cancels(dk.n.val(), dk.lambda.val(), r2),
    ensures
        ({
            let sum = homomorphic_sum_of(
                dk.nn.val(),
                encryption_of(dk.n.val(), m1, r1) as nat,
                encryption_of(dk.n.val(), m2, r2) as nat,
            );
            reference_valid(sum, dk.nn.val(), dk.lambda.val(), dk.n.val())
                && reference_decryption_of(dk, sum) == (m1 + m2) % dk.n.val()
        }),
{
    let n = dk.n.val();
    let nn = dk.nn.val() as int;
    let lambda = dk.lambda.val();
    assert(n >= 9 && dk.nn.val() == n * n) by (nonlinear_arith)
        requires
            dk.p.val() >= 3,
            dk.q.val() >= 3,
            n == dk.p.val() * dk.q.val(),
            dk.nn.val() == n * n,
    ;
    assert(nn == (n * n) as int);
    lemma_encryption_standard_form(n, m1, r1);
    lemma_encryption_standard_form(n, m2, r2);
    let s1 = randomness_factor(n, r1);
    let s2 = randomness_factor(n, r2);
    let a1 = (1 + m1 * n) as int;
    let a2 = (1 + m2 * n) as int;
    let c1 = encryption_of(n, m1, r1) as nat;
    let c2 = encryption_of(n, m2, r2) as nat;
    let b = (1 + (m1 + m2) * n) as int;
    let s = (s1 * s2) as int;
    lemma_mul_mod_noop(a1 * s1, a2 * s2, nn);
    let k12 = (m1 * m2) as int;
    assert(a1 * a2 == nn * k12 + b) by (nonlinear_arith)
        requires
            a1 == 1 + m1 * n,
            a2 == 1 + m2 * n,
            b == 1 + (m1 + m2) * n,
            k12 == (m1 * m2) as int,
            nn == (n * n) as int,
    ;
    assert((a1 * s1) * (a2 * s2) == (a1 * a2) * s) by (nonlinear_arith)
        requires
            s == (s1 * s2) as int,
    ;
    assert((nn * k12 + b) * s == nn * (k12 * s) + b * s) by (nonlinear_arith);
    lemma_mod_multiples_vanish(k12 * s, b * s, nn);
    lemma_factor_cancels(n, lambda, r1);
    lemma_factor_cancels(n, lambda, r2);
    lemma_product_cancels(n, lambda, s1, s2);
    lemma_reference_decrypts_standard_form(
        dk,
        homomorphic_sum_of(dk.nn.val(), c1, c2),
        m1 + m2,
        s1 * s2,
    );
}

/// Scalar multiplication: a ciphertext raised to the power k decrypts to
/// k times the plaintext modulo n, for any plaintext, any scalar, and
/// any randomness whose Carmichael power cancels.
pub proof fn lemma_scalar_multiplication(dk: DecryptionKey, m: nat, r: nat, k: nat)
    requires
        dk.wf(),
        randomness_cancels(dk.n.val(), dk.lambda.val(), r),
    ensures
        ({
            let scaled = scalar_product_of(
                dk.nn.val(),
                encryption_of(dk.n.val(), m, r) as nat,
                k,
            ) as nat;
            reference_valid(scaled, dk.nn.val(), dk.lambda.val(), dk.n.val())
                && reference_decryption_of(dk, scaled) == (m * k) % dk.n.val()
        }),
{
    let n = dk.n.val();
    let nn = dk.nn.val() as int;
    let lambda = dk.lambda.val();
    assert(n >= 9 && dk.nn.val() == n * n) by (nonlinear_arith)
        requires
            dk.p.val() >= 3,
            dk.q.val() >= 3,
            n == dk.p.val() * dk.q.val(),
            dk.nn.val() == n * n,
    ;
    assert(nn == (n * n) as int);
    lemma_encryption_standard_form(n, m, r);
    let s = randomness_factor(n, r);
    let a = (1 + m * n) as int;
    let c = encryption_of(n, m, r) as nat;
    let sk = (pow(s as int, k) % nn) as nat;
    lemma_mod_bound(pow(s as int, k), nn);

    // c^k mod n^2 == (1 + m*k*n) * (s^k mod n^2) mod n^2.
    lemma_pow_mod_noop(a * s, k, nn);
    lemma_pow_distributes(a, s as int, k);
    lemma_mul_mod_noop(pow(a, k), pow(s as int, k), nn);
    lemma_binomial_collapse(n, m, k);
    lemma_mul_mod_noop_left((1 + m * k * n) as int, sk as int, nn);

    // The remaining factor still cancels: (s^k)^lambda == (s^lambda)^k.
    lemma_factor_cancels(n, lambda, r);
    assert(pow(sk as int, lambda) % nn == 1) by {
        lemma_pow_mod_noop(pow(s as int, k), lambda, nn);
        lemma_pow_multiplies(s as int, k, lambda);
        assert(k * lambda == lambda * k) by (nonlinear_arith);
        lemma_pow_multiplies(s as int, lambda, k);
        lemma_pow_mod_noop(pow(s as int, lambda), k, nn);
        lemma1_pow(k);
        lemma_small_mod(1, (n * n) as nat);
    }
    lemma_reference_decrypts_standard_form(
        dk,
        (scalar_product_of(dk.nn.val(), c, k)) as nat,
        m * k,
        sk,
    );
}

/// Re-randomization invariance: multiplying a ciphertext by a fresh
/// r2^n mod n^2 leaves what it decrypts to unchanged, for any plaintext
/// m below n and any two randomness values whose Carmichael powers
/// cancel.
pub proof fn lemma_rerandomization(dk: DecryptionKey, m: nat, r: nat, r2: nat)
    requires
        dk.wf(),
        m < dk.n.val(),
        randomness_cancels(dk.n.val(), dk.lambda.val(), r),
        randomness_cancels(dk.n.val(), dk.lambda.val(), r2),
    ensures
        ({
            let fresh = rerandomization_of(
                dk.n.val(),
                encryption_of(dk.n.val(), m, r) as nat,
                r2,
            ) as nat;
            reference_valid(fresh, dk.nn.val(), dk.lambda.val(), dk.n.val())
                && reference_decryption_of(dk, fresh) == m
        }),
{
    let n = dk.n.val();
    let nn = dk.nn.val() as int;
    let lambda = dk.lambda.val();
    assert(n >= 9 && dk.nn.val() == n * n) by (nonlinear_arith)
        requires
            dk.p.val() >= 3,
            dk.q.val() >= 3,
            n == dk.p.val() * dk.q.val(),
            dk.nn.val() == n * n,
    ;
    assert(nn == (n * n) as int);
    lemma_encryption_standard_form(n, m, r);
    let s1 = randomness_factor(n, r);
    let s2 = randomness_factor(n, r2);
    let a = (1 + m * n) as int;
    let c = encryption_of(n, m, r) as nat;
    lemma_mod_bound(pow(r2 as int, n), nn);
    lemma_mul_mod_noop_left((a * s1) as int, s2 as int, nn);
    assert((a * s1) * s2 == a * ((s1 * s2) as int)) by (nonlinear_arith)
        requires
            a == (1 + m * n) as int,
    ;
    lemma_factor_cancels(n, lambda, r);
    lemma_factor_cancels(n, lambda, r2);
    lemma_product_cancels(n, lambda, s1, s2);
    lemma_reference_decrypts_standard_form(
        dk,
        rerandomization_of(n, c, r2) as nat,
        m,
        s1 * s2,
    );
    lemma_small_mod(m, n);
}

/// Fermat's little theorem lifted to p^2, stated of one value: r raised
/// to n times the half-size private exponent is congruent to 1 modulo
/// p^2. It holds for every r coprime to p when the exponent comes from a
/// genuine key; it is the per-prime number theory the Chinese-Remainder
/// law below assumes.
pub open spec fn randomness_cancels_mod_prime(p: nat, n: nat, e: nat, r: nat) -> bool {
    pow(r as int, (n * e) as nat) % ((p * p) as int) == 1
}

/// Powers of 1 + b*p, modulo p^2, pass the L-function check and have
/// L-image b*e mod p.
proof fn lemma_collapse_l(p: nat, b: nat, e: nat)
    requires
        p >= 2,
    ensures
        (pow((1 + b * p) as int, e) % ((p * p) as int)) % (p as int) == 1,
        l_int(pow((1 + b * p) as int, e) % ((p * p) as int), p as int) == ((b * e) as int) % (
        p as int),
{
    lemma_binomial_collapse(p, b, e);
    let w = (1 + b * e * p) as int;
    assert(w == (p as int) * ((b * e) as int) + 1) by (nonlinear_arith)
        requires
            w == (1 + b * e * p) as int,
    ;
    lemma_div_multiples_vanish_fancy((b * e) as int, 1, p as int);
    lemma_mod_multiples_vanish((b * e) as int, 1, p as int);
    lemma_small_mod(1, p);
    lemma_mod_breakdown(w, p as int, p as int);
    let x = pow((1 + b * p) as int, e) % ((p * p) as int);
    assert(x == (p as int) * (((b * e) as int) % (p as int)) + 1);
    assert(x % (p as int) == 1) by {
        lemma_mod_multiples_vanish((((b * e) as int) % (p as int)), 1, p as int);
        lemma_small_mod(1, p);
    }
    assert(l_int(x, p as int) == ((b * e) as int) % (p as int)) by {
        lemma_div_multiples_vanish((((b * e) as int) % (p as int)), p as int);
    }
}

/// One half of the Chinese-Remainder decryption of an encryption: if the
/// randomness cancels modulo p^2, the half-residue is the plaintext's
/// residue modulo p. Written for the p side; the q side is the same
/// statement with the factors swapped.
proof fn lemma_half_residue_recovers(
    p: nat,
    cofactor: nat,
    n: nat,
    e: nat,
    h: nat,
    m: nat,
    r: nat,
    c: nat,
)
    requires
        p >= 2,
        cofactor >= 2,
        n == p * cofactor,
        (l_int(pow((n + 1) as int, e) % ((p * p) as int), p as int) * h) % (p as int) == 1,
        randomness_cancels_mod_prime(p, n, e, r),
        c == encryption_of(n, m, r) as nat,
    ensures
        half_valid(c, p * p, e, p),
        half_residue(c, p * p, e, h, p) == (m as int) % (p as int),
{
    let pi = p as int;
    let pp = (p * p) as int;
    let nn = (n * n) as int;
    let cc = (cofactor * cofactor) as int;
    assert(n >= 4 && pp >= 4 && cc >= 4 && nn == pp * cc) by (nonlinear_arith)
        requires
            p >= 2,
            cofactor >= 2,
            n == p * cofactor,
            pp == (p * p) as int,
            cc == (cofactor * cofactor) as int,
            nn == (n * n) as int,
    ;
    lemma_encryption_standard_form(n, m, r);
    let s = randomness_factor(n, r);
    let big_a = (1 + m * n) as int;

    // The ciphertext reduced modulo p^2 keeps the standard shape.
    vstd::arithmetic::div_mod::lemma_mod_mod((big_a * s) as int, pp, cc);
    assert((c as int) % pp == (big_a * s) % pp);

    // Its power modulo p^2 splits into the two collapsed factors.
    let x = half_power(c, p * p, e);
    lemma_pow_mod_noop((c as int) % pp, e, pp);
    lemma_pow_mod_noop(big_a * s, e, pp);
    lemma_pow_distributes(big_a, s as int, e);
    lemma_mul_mod_noop(pow(big_a, e), pow(s as int, e), pp);
    assert(x == ((pow(big_a, e) % pp) * (pow(s as int, e) % pp)) % pp);

    // The randomness factor cancels modulo p^2.
    assert(pow(s as int, e) % pp == 1) by {
        lemma_mod_bound(pow(r as int, n), nn);
        vstd::arithmetic::div_mod::lemma_mod_mod(pow(r as int, n), pp, cc);
        lemma_pow_mod_noop(s as int, e, pp);
        lemma_pow_mod_noop(pow(r as int, n), e, pp);
        lemma_pow_multiplies(r as int, n, e);
    }

    // The plaintext factor collapses to 1 + m*cofactor*e*p.
    assert(big_a == (1 + (m * cofactor) * p) as int) by (nonlinear_arith)
        requires
            big_a == (1 + m * n) as int,
            n == p * cofactor,
    ;
    lemma_collapse_l(p, m * cofactor, e);
    assert(x == pow(big_a, e) % pp) by {
        lemma_mod_twice(pow(big_a, e), pp);
    }

    // The helper h inverts cofactor*e mod p, because the generator
    // collapses the same way with b = cofactor.
    assert((n + 1) as int == (1 + cofactor * p) as int) by (nonlinear_arith)
        requires
            n == p * cofactor,
    ;
    lemma_collapse_l(p, cofactor, e);
    assert((((cofactor * e) as int % pi) * h) % pi == 1);
    assert(((cofactor * e) as int * h) % pi == 1) by {
        lemma_mul_mod_noop_left((cofactor * e) as int, h as int, pi);
    }

    // Chain: residue = m * (cofactor*e*h) ≡ m (mod p).
    assert(half_residue(c, p * p, e, h, p) == (m as int) % pi) by {
        lemma_mul_mod_noop_left(((m * cofactor) * e) as int, h as int, pi);
        assert((m * cofactor) * e * h == m * ((cofactor * e) * h)) by (nonlinear_arith);
        lemma_mul_mod_noop_right(m as int, ((cofactor * e) * h) as int, pi);
        assert((m as int) * 1 == m as int);
        lemma_mod_twice(m as int, pi);
    }
}

/// Round trip through the Chinese-Remainder path itself: for every
/// plaintext m below n and randomness whose per-prime Fermat powers
/// cancel, the fast decryption path accepts the encryption of m and
/// returns exactly m. Together with the round-trip law for the reference
/// path, this is the agreement of the two paths on every such
/// ciphertext.
pub proof fn lemma_crt_round_trip(dk: DecryptionKey, m: nat, r: nat)
    requires
        dk.wf(),
        m < dk.n.val(),
        randomness_cancels_mod_prime(dk.p.val(), dk.n.val(), dk.exp_p.val(), r),
        randomness_cancels_mod_prime(dk.q.val(), dk.n.val(), dk.exp_q.val(), r),
    ensures
        ({
            let c = encryption_of(dk.n.val(), m, r) as nat;
            &&& half_valid(c, dk.pp.val(), dk.exp_p.val(), dk.p.val())
            &&& half_valid(c, dk.qq.val(), dk.exp_q.val(), dk.q.val())
            &&& crt_decryption_of(dk, c) == m
        }),
{
    let n = dk.n.val();
    let p = dk.p.val();
    let q = dk.q.val();
    let c = encryption_of(n, m, r) as nat;
    lemma_half_residue_recovers(p, q, n, dk.exp_p.val(), dk.hp.val(), m, r, c);
    assert(n == q * p) by (nonlinear_arith)
        requires
            n == p * q,
    ;
    lemma_half_residue_recovers(q, p, n, dk.exp_q.val(), dk.hq.val(), m, r, c);
    lemma_crt_decryption_reconstructs(dk, c, m);
}

/// The two decryption paths agree: on the encryption of any plaintext m
/// below n, under the Carmichael hypothesis for the reference path and
/// the per-prime Fermat hypotheses for the Chinese-Remainder path, both
/// paths return the same value — namely m. The optimization changes no
/// result.
pub proof fn lemma_decryption_paths_agree(dk: DecryptionKey, m: nat, r: nat)
    requires
        dk.wf(),
        m < dk.n.val(),
        randomness_cancels(dk.n.val(), dk.lambda.val(), r),
        randomness_cancels_mod_prime(dk.p.val(), dk.n.val(), dk.exp_p.val(), r),
        randomness_cancels_mod_prime(dk.q.val(), dk.n.val(), dk.exp_q.val(), r),
    ensures
        ({
            let c = encryption_of(dk.n.val(), m, r) as nat;
            crt_decryption_of(dk, c) == reference_decryption_of(dk, c)
        }),
{
    lemma_round_trip(dk, m, r);
    lemma_crt_round_trip(dk, m, r);
}

} // verus!
