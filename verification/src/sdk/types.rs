//! Records exchanged with a state node.

use vstd::prelude::*;

verus! {

/// SAAP proof transcript for verification.
#[derive(Debug, Clone)]
pub struct SaapProofTranscript {
    /// Session context tag τ.
    pub context_tag: [u8; 32],
    /// Attribute disclosure bitmask.
    pub disclosure_mask: u8,
    /// Disclosed attribute values.
    pub disclosed_attributes: Vec<u64>,
    /// Fiat-Shamir challenge polynomial.
    pub challenge: Vec<i32>,
    /// Response vector.
    pub response_z: Vec<i32>,
    /// Commitment hash.
    pub commitment_hash: [u8; 32],
}

/// Result of SAAP proof verification.
#[derive(Debug, Clone, PartialEq, Eq)]
pub enum VerificationResult {
    /// Proof is valid; disclosed attributes are authentic.
    Accept,
    /// Proof is invalid, with the reason.
    Reject(String),
}

} // verus!
