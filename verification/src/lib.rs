//! Post-quantum ephemeral identities over Module-LWE.
//!
//! - [`plp`]: Polymorphic Lattice Projection — a master secret projected per
//!   context, and a Fiat-Shamir proof of knowledge for a projection.
//! - [`credential`]: SAAP credentials — BDLOP issuance, blinding and
//!   presentation, linked to the PLP identity.
//! - [`htss`]: Shamir 3-of-5 sharing over `F_q` and hypercube routing.
//! - [`signing`]: ML-DSA-65 identities derived alongside the PLP seed.
//! - [`puf`]: SRAM PUF fuzzy extractor and BCH building blocks.
//! - [`sampling`], [`ct_verify`]: the fixed-iteration enclave prover.
//! - [`component`]: the component's operations over plain values.

use vstd::prelude::*;

pub mod component;
pub mod credential;
pub mod ct_verify;
pub mod htss;
pub mod identity_error;
pub mod ntt;
pub mod plp;
pub mod puf;
pub mod ring;
pub mod saap;
pub mod sampling;
pub mod sdk;
pub mod signing;
pub mod xof;

pub use htss::{HypercubeNetwork, NodeAddress, SecretSharer, ZkProofSegment};
pub use identity_error::IdentityError;
pub use plp::{EphemeralProjection, MasterIdentity, Prover, Verifier, ZkIdentityProof};
pub use saap::SaapValidationError;
pub use signing::{verify, Identity};

verus! {

/// Ring degree N for the cyclotomic polynomial X^N + 1.
pub const RING_N: usize = 256;

/// Prime modulus q = 8_380_417 ≈ 2^23, q ≡ 1 (mod 512).
pub const MODULUS_Q: i64 = 8_380_417;

/// Module rank k.
pub const MODULE_K: usize = 4;

/// Centered binomial distribution parameter η = 2.
pub const PARAM_ETA: i64 = 2;

/// Masking vector bound γ₁ = 2^17.
pub const PARAM_GAMMA1: i64 = 131_072;

/// Rejection sampling bound β = 78.
pub const PARAM_BETA: i64 = 78;

/// Rejection threshold γ₁ − β = 130_994.
pub const REJECTION_BOUND: i64 = PARAM_GAMMA1 - PARAM_BETA;

/// Fixed iteration ceiling for the constant-time enclave loop.
pub const FIXED_ITERATION_CEILING: usize = 16;

/// Magic header bytes `"ATH1"` of the ephemeral identity attestation bundle.
pub const EIAB_MAGIC: [u8; 4] = [65, 84, 72, 49];

/// Top-level error type.
#[derive(Debug, Clone, Copy, PartialEq, Eq, Structural)]
pub enum AethelError {
    /// Serialization or deserialization failed.
    SerializationError,
    /// Proof verification failed.
    VerificationFailed,
    /// Rejection sampling exhausted all iterations.
    RejectionSamplingFailed,
    /// PUF reconstruction failed (too many bit errors).
    PufReconstructionFailed,
    /// Invalid input length.
    InvalidInputLength,
    /// SAAP validation error.
    SaapError(SaapValidationError),
}

impl From<SaapValidationError> for AethelError {
    fn from(e: SaapValidationError) -> (r: Self) {
        AethelError::SaapError(e)
    }
}

impl vstd::std_specs::convert::FromSpecImpl<SaapValidationError> for AethelError {
    open spec fn obeys_from_spec() -> bool {
        true
    }

    open spec fn from_spec(e: SaapValidationError) -> AethelError {
        AethelError::SaapError(e)
    }
}

} // verus!
