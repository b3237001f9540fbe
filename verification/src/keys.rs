//! Key material: the public encryption key, the private decryption key with
//! its Chinese-Remainder precomputation, and key generation.

use vstd::prelude::*;
use vstd::arithmetic::power::pow;
use vstd::arithmetic::power2::pow2;
use crate::bignat::{Natural, gcd_nat};
use crate::error::PaillierError;

verus! {

/// No modulus below this many bits is accepted: anything smaller cannot
/// hold two distinct half-size primes and would be nonsensical.
pub const MIN_MODULUS_BITS: u64 = 8;

/// How many candidates a single prime search may test before giving up.
/// Prime density makes exhaustion a sign of a broken randomness source,
/// not of bad luck.
pub const PRIME_RETRY_BUDGET: u64 = 50000;

/// How many times key generation may redraw a colliding prime pair.
pub const KEY_RETRY_BUDGET: u64 = 64;

/// The L-function of the scheme: L(x) = (x - 1) / n, integer division.
/// Meaningful when x is congruent to 1 modulo n.
pub open spec fn l_int(x: int, n: int) -> int {
    (x - 1) / n
}

/// Carmichael's function of n = p*q for distinct primes p and q:
/// lcm(p-1, q-1), computed as (p-1)(q-1) / gcd(p-1, q-1).
pub open spec fn carmichael(p: nat, q: nat) -> nat
    recommends
        p >= 1,
        q >= 1,
{
    (((p - 1) * (q - 1)) as nat) / gcd_nat((p - 1) as nat, (q - 1) as nat)
}

/// The closed form of L(g^lambda mod n^2) for the generator g = n + 1:
/// (lambda * n mod n^2) divided by n. Its modular inverse is mu.
pub open spec fn mu_base(lambda: nat, n: nat) -> nat {
    ((lambda * n) % (n * n)) / n
}

/// The private exponent used on one half-size modulus: lambda reduced
/// modulo p(p-1), the order of the multiplicative group modulo p^2.
pub open spec fn crt_exponent(lambda: nat, p: nat) -> nat
    recommends
        p >= 2,
{
    lambda % ((p * (p - 1)) as nat)
}

/// The generator raised to the half-size private exponent, modulo p^2:
/// the value whose L-image the helper hp (or hq) inverts modulo p (or q).
pub open spec fn crt_generator_power(n: nat, lambda: nat, p: nat) -> int {
    pow((n + 1) as int, crt_exponent(lambda, p)) % ((p * p) as int)
}

/// Exactly when deriving a full key from the primes p and q succeeds:
/// every modular inverse the scheme needs exists, and the two L-function
/// arguments are nonzero. For genuinely prime, distinct p and q this
/// holds except in degenerate cases (for instance q dividing lambda's
/// relevant part), which key generation reports rather than assumes away.
pub open spec fn derivation_ok(p: nat, q: nat) -> bool
    recommends
        p >= 3,
        q >= 3,
{
    let n = p * q;
    let lambda = carmichael(p, q);
    &&& gcd_nat(mu_base(lambda, n), n) == 1
    &&& crt_generator_power(n, lambda, p) >= 1
    &&& gcd_nat((l_int(crt_generator_power(n, lambda, p), p as int)) as nat, p) == 1
    &&& crt_generator_power(n, lambda, q) >= 1
    &&& gcd_nat((l_int(crt_generator_power(n, lambda, q), q as int)) as nat, q) == 1
    &&& gcd_nat(p, q) == 1
}

/// The public half of a key pair: the modulus n, its cached square, and
/// the generator g = n + 1. Immutable once constructed.
pub struct EncryptionKey {
    pub n: Natural,
    pub nn: Natural,
    pub g: Natural,
}

impl EncryptionKey {
    /// The cached square really is the square, and the generator is n + 1.
    pub open spec fn wf(&self) -> bool {
        &&& self.n.val() >= 2
        &&& self.nn.val() == self.n.val() * self.n.val()
        &&& self.g.val() == self.n.val() + 1
    }

    /// Builds the public key for a modulus, caching n^2 and g = n + 1.
    pub fn from_modulus(n: Natural) -> (r: EncryptionKey)
        requires
            n.val() >= 2,
        ensures
            r.wf(),
            r.n.val() == n.val(),
    {
        let one = Natural::from_u64(1);
        let nn = n.mul_val(&n);
        let g = n.add_val(&one);
        EncryptionKey { n, nn, g }
    }
}

/// The private half of a key pair: the prime factors, the derived
/// private exponent material, and the Chinese-Remainder precomputation
/// that lets decryption work with two half-size exponentiations.
/// Immutable once constructed; never to be shared.
pub struct DecryptionKey {
    pub p: Natural,
    pub q: Natural,
    pub n: Natural,
    pub nn: Natural,
    pub lambda: Natural,
    pub mu: Natural,
    pub pp: Natural,
    pub qq: Natural,
    pub hp: Natural,
    pub hq: Natural,
    pub p_inv_q: Natural,
    pub exp_p: Natural,
    pub exp_q: Natural,
}

impl DecryptionKey {
    /// Every derived field is consistent with the prime pair: the moduli
    /// are the stated products, lambda is Carmichael's function, mu and
    /// the helpers hp, hq, p_inv_q invert what they must invert.
    pub open spec fn wf(&self) -> bool {
        let p = self.p.val();
        let q = self.q.val();
        let n = self.n.val();
        let lambda = self.lambda.val();
        &&& p >= 3
        &&& q >= 3
        &&& p != q
        &&& n == p * q
        &&& self.nn.val() == n * n
        &&& self.pp.val() == p * p
        &&& self.qq.val() == q * q
        &&& lambda == carmichael(p, q)
        &&& self.mu.val() < n
        &&& (mu_base(lambda, n) * self.mu.val()) % n == 1
        &&& self.exp_p.val() == crt_exponent(lambda, p)
        &&& self.exp_q.val() == crt_exponent(lambda, q)
        &&& self.hp.val() < p
        &&& (l_int(crt_generator_power(n, lambda, p), p as int) * self.hp.val()) % (
        p as int) == 1
        &&& self.hq.val() < q
        &&& (l_int(crt_generator_power(n, lambda, q), q as int) * self.hq.val()) % (
        q as int) == 1
        &&& self.p_inv_q.val() < q
        &&& (p * self.p_inv_q.val()) % q == 1
    }

    /// Derives the full private key from its minimal representation, the
    /// two primes. Succeeds exactly when every inverse the scheme needs
    /// exists; a failure reports a malformed prime pair instead of
    /// producing inconsistent key material.
    pub fn from_primes(p: Natural, q: Natural) -> (r: Result<DecryptionKey, PaillierError>)
        requires
            p.val() >= 3,
            q.val() >= 3,
            p.val() != q.val(),
        ensures
            r is Ok <==> derivation_ok(p.val(), q.val()),
            r matches Ok(dk) ==> dk.wf() && dk.p.val() == p.val() && dk.q.val() == q.val(),
            r is Err ==> r matches Err(PaillierError::KeyGenerationError),
    {
        let zero = Natural::from_u64(0);
        let one = Natural::from_u64(1);
        let n = p.mul_val(&q);
        proof {
            assert(n.val() >= 9) by (nonlinear_arith)
                requires
                    p.val() >= 3,
                    q.val() >= 3,
                    n.val() == p.val() * q.val(),
            ;
        }
        let nn = n.mul_val(&n);
        proof {
            assert(nn.val() >= 81) by (nonlinear_arith)
                requires
                    n.val() >= 9,
                    nn.val() == n.val() * n.val(),
            ;
        }
        let pm1 = p.sub_val(&one);
        let qm1 = q.sub_val(&one);
        let d = pm1.gcd_with(&qm1);
        proof {
            lemma_gcd_pos(pm1.val(), qm1.val());
        }
        let lambda = pm1.mul_val(&qm1).div_val(&d);
        let g = n.add_val(&one);

        // mu: invert the closed form of L(g^lambda mod n^2) modulo n.
        let mb = lambda.mul_val(&n).rem_val(&nn);
        let mb = mb.div_val(&n);
        let mu = match mb.modinv(&n) {
            Some(v) => v,
            None => {
                return Err(PaillierError::KeyGenerationError);
            },
        };

        // Chinese-Remainder precomputation for the p side.
        let pp = p.mul_val(&p);
        proof {
            assert(pp.val() >= 9 && p.val() * (p.val() - 1) >= 6) by (nonlinear_arith)
                requires
                    p.val() >= 3,
                    pp.val() == p.val() * p.val(),
            ;
        }
        let p_ord = p.mul_val(&pm1);
        let exp_p = lambda.rem_val(&p_ord);
        let gp = g.modpow(&exp_p, &pp);
        if gp.eq_val(&zero) {
            return Err(PaillierError::KeyGenerationError);
        }
        let lp = gp.sub_val(&one).div_val(&p);
        let hp = match lp.modinv(&p) {
            Some(v) => v,
            None => {
                return Err(PaillierError::KeyGenerationError);
            },
        };

        // Chinese-Remainder precomputation for the q side.
        let qq = q.mul_val(&q);
        proof {
            assert(qq.val() >= 9 && q.val() * (q.val() - 1) >= 6) by (nonlinear_arith)
                requires
                    q.val() >= 3,
                    qq.val() == q.val() * q.val(),
            ;
        }
        let q_ord = q.mul_val(&qm1);
        let exp_q = lambda.rem_val(&q_ord);
        let gq = g.modpow(&exp_q, &qq);
        if gq.eq_val(&zero) {
            return Err(PaillierError::KeyGenerationError);
        }
        let lq = gq.sub_val(&one).div_val(&q);
        let hq = match lq.modinv(&q) {
            Some(v) => v,
            None => {
                return Err(PaillierError::KeyGenerationError);
            },
        };

        let p_inv_q = match p.modinv(&q) {
            Some(v) => v,
            None => {
                return Err(PaillierError::KeyGenerationError);
            },
        };

        Ok(DecryptionKey { p, q, n, nn, lambda, mu, pp, qq, hp, hq, p_inv_q, exp_p, exp_q })
    }

    /// The public key that belongs to this private key.
    pub fn encryption_key(&self) -> (r: EncryptionKey)
        requires
            self.wf(),
        ensures
            r.wf(),
            r.n.val() == self.n.val(),
    {
        proof {
            assert(self.n.val() >= 9) by (nonlinear_arith)
                requires
                    self.p.val() >= 3,
                    self.q.val() >= 3,
                    self.n.val() == self.p.val() * self.q.val(),
            ;
        }
        EncryptionKey::from_modulus(self.n.duplicate())
    }
}

/// Draws one random odd candidate of exactly `bits` bits: the top and the
/// low bit are forced, the rest is uniform.
fn prime_candidate(bits: u64) -> (r: Natural)
    requires
        bits >= 2,
    ensures
        r.val() % 2 == 1,
        pow2((bits - 1) as nat) <= r.val() < pow2(bits as nat),
{
    let base = Natural::power_of_two(bits - 1);
    proof {
        vstd::arithmetic::power2::lemma_pow2_pos((bits - 1) as nat);
        vstd::arithmetic::power2::lemma_pow2_unfold(bits as nat);
    }
    let offset = Natural::random_below(&base);
    let c = base.add_val(&offset);
    let two = Natural::from_u64(2);
    let zero = Natural::from_u64(0);
    if c.rem_val(&two).eq_val(&zero) {
        let one = Natural::from_u64(1);
        let odd = c.add_val(&one);
        proof {
            assert(pow2((bits - 1) as nat) % 2 == 0) by {
                vstd::arithmetic::power2::lemma_pow2_unfold((bits - 1) as nat);
            }
            assert(pow2(bits as nat) % 2 == 0);
            assert(c.val() < pow2(bits as nat));
            assert(odd.val() < pow2(bits as nat)) by {
                assert(c.val() % 2 == 0 && pow2(bits as nat) % 2 == 0 && c.val() < pow2(
                    bits as nat) ==> c.val() + 1 < pow2(bits as nat)) by (nonlinear_arith);
            }
        }
        odd
    } else {
        c
    }
}

/// Searches for a probable prime of exactly `bits` bits, testing at most
/// `PRIME_RETRY_BUDGET` random candidates. The verdict on each candidate
/// comes from the outside primality test; exhausting the budget is a hard
/// failure, never a degraded result.
fn find_probable_prime(bits: u64) -> (r: Result<Natural, PaillierError>)
    requires
        bits >= 2,
    ensures
        r matches Ok(v) ==> v.val() % 2 == 1 && pow2((bits - 1) as nat) <= v.val() < pow2(
            bits as nat),
        r is Err ==> r matches Err(PaillierError::KeyGenerationError),
{
    let mut tries: u64 = 0;
    while tries < PRIME_RETRY_BUDGET
        invariant
            bits >= 2,
        decreases PRIME_RETRY_BUDGET - tries,
    {
        let candidate = prime_candidate(bits);
        if candidate.probably_prime() {
            return Ok(candidate);
        }
        tries = tries + 1;
    }
    Err(PaillierError::KeyGenerationError)
}

/// Generates a fresh key pair whose modulus has `bit_length` bits: two
/// independent probable primes of half that size, distinct, with all the
/// derived private material. A `bit_length` below `MIN_MODULUS_BITS` is
/// rejected as nonsensical; a failed prime search or a missing modular
/// inverse surfaces as `KeyGenerationError`.
pub fn generate_keys(bit_length: u64) -> (r: Result<(EncryptionKey, DecryptionKey), PaillierError>)
    ensures
        r matches Err(PaillierError::InvalidKeySize) <==> bit_length < MIN_MODULUS_BITS,
        r matches Ok(pair) ==> {
            let (ek, dk) = pair;
            &&& ek.wf()
            &&& dk.wf()
            &&& ek.n.val() == dk.n.val()
            &&& derivation_ok(dk.p.val(), dk.q.val())
            &&& dk.p.val() % 2 == 1
            &&& dk.q.val() % 2 == 1
            &&& pow2((bit_length / 2 - 1) as nat) <= dk.p.val() < pow2((bit_length / 2) as nat)
            &&& pow2((bit_length / 2 - 1) as nat) <= dk.q.val() < pow2((bit_length / 2) as nat)
        },
        r is Err ==> (r matches Err(PaillierError::InvalidKeySize) || r matches Err(
            PaillierError::KeyGenerationError,
        )),
{
    if bit_length < MIN_MODULUS_BITS {
        return Err(PaillierError::InvalidKeySize);
    }
    let half = bit_length / 2;
    let mut attempt: u64 = 0;
    while attempt < KEY_RETRY_BUDGET
        invariant
            half == bit_length / 2,
            half >= 4,
        decreases KEY_RETRY_BUDGET - attempt,
    {
        let p = match find_probable_prime(half) {
            Ok(v) => v,
            Err(e) => {
                return Err(e);
            },
        };
        let q = match find_probable_prime(half) {
            Ok(v) => v,
            Err(e) => {
                return Err(e);
            },
        };
        if !p.eq_val(&q) {
            proof {
                vstd::arithmetic::power2::lemma_pow2_pos((half - 1) as nat);
                assert(pow2((half - 1) as nat) >= pow2(3nat)) by {
                    if half - 1 > 3 {
                        vstd::arithmetic::power2::lemma_pow2_strictly_increases(
                            3nat,
                            (half - 1) as nat,
                        );
                    }
                }
                assert(pow2(3nat) == 8) by {
                    vstd::arithmetic::power2::lemma2_to64();
                }
            }
            let dk = match DecryptionKey::from_primes(p, q) {
                Ok(v) => v,
                Err(e) => {
                    return Err(e);
                },
            };
            let ek = dk.encryption_key();
            return Ok((ek, dk));
        }
        attempt = attempt + 1;
    }
    Err(PaillierError::KeyGenerationError)
}

/// Euclid's gcd of two naturals is positive when either argument is.
proof fn lemma_gcd_pos(a: nat, b: nat)
    requires
        a > 0 || b > 0,
    ensures
        gcd_nat(a, b) >= 1,
    decreases b,
{
    if b == 0 {
    } else {
        lemma_gcd_pos(b, a % b);
    }
}

} // verus!
