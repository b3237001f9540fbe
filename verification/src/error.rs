//! Typed failures of the cryptosystem.

use vstd::prelude::*;

verus! {

/// Every failure the core can report. None is recovered silently: each
/// surfaces to the caller as a typed value.
#[derive(Clone, Copy, Debug, PartialEq, Eq, Structural)]
pub enum PaillierError {
    /// The requested modulus size is too small to admit two half-size primes.
    InvalidKeySize,
    /// Prime search or a modular-inverse derivation exhausted its budget.
    KeyGenerationError,
    /// An encoded plaintext was not strictly below the modulus.
    PlaintextOutOfRange,
    /// A ciphertext was outside `[0, n^2)` or failed the L-function check.
    InvalidCiphertext,
    /// A decrypted residue does not fit the fixed-width target type.
    DecodedValueOverflow,
}

impl PaillierError {
    /// A short human-readable name for the failure.
    pub fn describe(&self) -> (r: &'static str)
        ensures
            r@.len() > 0,
    {
        let s = match self {
            PaillierError::InvalidKeySize => "invalid key size",
            PaillierError::KeyGenerationError => "key generation failed",
            PaillierError::PlaintextOutOfRange => "plaintext out of range",
            PaillierError::InvalidCiphertext => "invalid ciphertext",
            PaillierError::DecodedValueOverflow => "decoded value overflow",
        };
        proof {
            reveal_strlit("invalid key size");
            reveal_strlit("key generation failed");
            reveal_strlit("plaintext out of range");
            reveal_strlit("invalid ciphertext");
            reveal_strlit("decoded value overflow");
        }
        s
    }
}

} // verus!
