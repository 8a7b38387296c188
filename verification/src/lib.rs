//! PMPT: a point-based cryptosystem over big naturals, with threshold secret
//! sharing, a byte substitution box, ring tags, and a keyed MAC.
//!
//! A text, or the digest of some data, is mapped to a point of three
//! coordinates. The point is transformed byte by byte: every byte is
//! substituted through a box and then raised by a noise byte. A ring tag, the
//! inner product with the public point modulo a prime, binds the transformed
//! point to a key pair. Key material comes from a secret that is shared out
//! over a polynomial.
//!
//! - `bignat`, `encoding`: natural numbers as big-endian bytes.
//! - `random`, `hashing`: the random source and the hash functions.
//! - `number_theory`, `primality`: arithmetic modulo a prime, and the
//!   Miller-Rabin test.
//! - `shamir`, `interpolation`: secret sharing, and why interpolation finds
//!   the secret again.
//! - `sbox`, `point`, `plaintext`, `noise`: the box, the transform, and the
//!   mapping between byte strings and points.
//! - `ring`, `cipher`, `hmac`: tags, encryption and decryption, signing and
//!   verifying.
//! - `classify`: classes of primes.
//!
//! The library holds no floating-point number. The noise of a key is drawn
//! by the caller, from a normal distribution and with a generator seeded by
//! `cipher::noise_seed` of the private point, and is handed in as bytes.

pub mod bignat;
pub mod cipher;
pub mod classify;
pub mod encoding;
pub mod errors;
pub mod hashing;
pub mod hmac;
pub mod interpolation;
pub mod noise;
pub mod number_theory;
pub mod plaintext;
pub mod point;
pub mod primality;
pub mod random;
pub mod ring;
pub mod sbox;
pub mod shamir;
