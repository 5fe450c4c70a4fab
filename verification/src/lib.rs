//! A GKR interactive proof for layered arithmetic circuits over the BN254 base
//! field, made non-interactive with a Fiat-Shamir transcript.
//!
//! `gkr_protocol` holds the prover and the verifier. They stand on the circuit
//! model (`gkr_circuit`), on multilinear, composed and univariate polynomials
//! (`multilinear`, `composed_polynomial`, `univariate`), on the sum-check
//! (`sum_check`) and on the transcript (`transcript`). Field arithmetic
//! (`field`) is done by arkworks and hashing by the `sha3` crate; all else is
//! verified.
//!
//! The verifier's check of a layer below the output uses coefficients that
//! are drawn after the prover's polynomial for that layer is built, so it
//! does not accept the prover's proofs for circuits of two or more layers but
//! for an accident of the digests. `completeness`, `output_layer` and
//! `layer_sum` prove what does hold of them: the layer polynomials sum to
//! their claims, the verifier of the sum-check accepts the prover, and the
//! output layer passes its check. `int_model` holds the polynomials over the
//! integers that these proofs model the tables with.

pub mod completeness;
pub mod composed_polynomial;
pub mod field;
pub mod gkr_circuit;
pub mod gkr_protocol;
pub mod int_model;
pub mod layer_sum;
pub mod multilinear;
pub mod output_layer;
pub mod sum_check;
pub mod transcript;
pub mod univariate;
