//! Paillier partially-homomorphic public-key cryptosystem.
//!
//! Key generation, probabilistic encryption, decryption through the Chinese
//! Remainder Theorem, and the additive-homomorphic ciphertext operations.
//! Arbitrary-precision arithmetic, primality testing and randomness are
//! capabilities supplied by outside libraries; everything the scheme itself
//! computes from those capabilities is verified.

pub mod bignat;
pub mod error;
pub mod keys;
pub mod encryption;
pub mod decryption;
pub mod homomorphic;
pub mod crt;
pub mod laws;

pub use bignat::Natural;
pub use error::PaillierError;
pub use keys::{EncryptionKey, DecryptionKey};
pub use encryption::{Ciphertext, Plaintext};
