//! Polynomial commitments with evaluation proofs.
//!
//! Two schemes commit to a polynomial over a prime field in one group element
//! and prove its value at a point: `kzg`, over the pairing of BLS12-381 and a
//! reference string that is set up from a secret, and `supersonic_ipa`, over
//! the Ristretto group and generators that are hashed from their indices,
//! with a logarithmic number of folding rounds. `scheme` offers both as one
//! capability. `modexp` is a commitment by modular exponentiation that binds
//! to a digest of the coefficients only.
//!
//! Field and group elements are held as plain encodings (`bls`, `ristretto`,
//! `bignat`); their arithmetic, the pairing and the hash (`sha`) are those of
//! the crates that this one depends on. `poly` holds what the schemes share of
//! polynomials: evaluation, division, and the laws that connect the two.

pub mod bignat;
pub mod bls;
pub mod encoding;
pub mod error;
pub mod kzg;
pub mod modexp;
pub mod poly;
pub mod ristretto;
pub mod scheme;
pub mod sha;
pub mod supersonic_ipa;
