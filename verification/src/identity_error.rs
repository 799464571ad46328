//! Mirror of the `identity-error` variant of the `aethel:core` WIT world.
//!
//! One flat, closed set of failure reasons across every operation.

use vstd::prelude::*;

use crate::saap::SaapValidationError;
use crate::sampling::RejectionError;

verus! {

/// Closed set of failure reasons across all `aethel:core` WIT operations.
#[derive(Debug, Clone, Copy, PartialEq, Eq, Structural)]
pub enum IdentityError {
    /// A byte-slice input was too short or malformed for the operation.
    InvalidInputLength,
    /// Serialization or deserialization of a proof/projection failed.
    SerializationError,
    /// Rejection sampling exhausted its fixed iteration ceiling.
    RejectionSamplingFailed,
    /// A response vector's infinity norm exceeded the rejection bound.
    ///
    /// Reserved: only the crate-internal single-response SAAP verifier's
    /// error type maps onto it.
    NormBoundViolation,
    /// A recomputed Fiat-Shamir challenge did not match the proof's challenge.
    ///
    /// Reserved, as [`Self::NormBoundViolation`].
    ChallengeMismatch,
    /// A disclosed attribute did not match its vector commitment.
    ///
    /// Reserved, as [`Self::NormBoundViolation`].
    InvalidAttributeCommitment,
    /// Fewer than the threshold number of shares were supplied for reconstruction.
    ThresholdNotMet,
    /// The supplied shares are not a valid share set: an evaluation index
    /// appears more than once, or more shares were supplied than the scheme
    /// issues.
    InvalidShareSet,
}

impl From<SaapValidationError> for IdentityError {
    fn from(e: SaapValidationError) -> (r: Self) {
        match e {
            SaapValidationError::NormBoundViolation => IdentityError::NormBoundViolation,
            SaapValidationError::ChallengeMismatch => IdentityError::ChallengeMismatch,
            SaapValidationError::InvalidAttributeCommitment => IdentityError::InvalidAttributeCommitment,
        }
    }
}

impl vstd::std_specs::convert::FromSpecImpl<SaapValidationError> for IdentityError {
    open spec fn obeys_from_spec() -> bool {
        true
    }

    open spec fn from_spec(e: SaapValidationError) -> IdentityError {
        match e {
            SaapValidationError::NormBoundViolation => IdentityError::NormBoundViolation,
            SaapValidationError::ChallengeMismatch => IdentityError::ChallengeMismatch,
            SaapValidationError::InvalidAttributeCommitment => IdentityError::InvalidAttributeCommitment,
        }
    }
}

impl From<RejectionError> for IdentityError {
    fn from(e: RejectionError) -> (r: Self) {
        match e {
            RejectionError::AllIterationsRejected => IdentityError::RejectionSamplingFailed,
        }
    }
}

impl vstd::std_specs::convert::FromSpecImpl<RejectionError> for IdentityError {
    open spec fn obeys_from_spec() -> bool {
        true
    }

    open spec fn from_spec(e: RejectionError) -> IdentityError {
        match e {
            RejectionError::AllIterationsRejected => IdentityError::RejectionSamplingFailed,
        }
    }
}

} // verus!
