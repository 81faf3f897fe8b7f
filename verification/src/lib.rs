//! Building blocks of a GKR-style interactive proof system over a prime
//! field: multilinear polynomials in evaluation form, a Fiat-Shamir
//! transcript driven by Keccak-256, a sumcheck prover and verifier, and a
//! layered arithmetic circuit with per-layer wiring predicates.

pub mod circuit;
pub mod errors;
pub mod field;
pub mod hypercube;
pub mod multilinear;
pub mod reduction;
pub mod sumcheck;
pub mod tensor;
pub mod transcript;

pub use circuit::{Gate, Layer, Opt};
pub use errors::Error;
pub use field::Fp;
pub use multilinear::MultilinearPoly;
pub use reduction::{LayerProof, LayerTerms};
pub use sumcheck::Proof;
pub use tensor::{tensor_addition, tensor_multiplication};
pub use transcript::Transcript;
