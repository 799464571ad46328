use aethel_core::htss::SecretSharer;
use aethel_core::plp::{checked_project_at_context, EphemeralProjection};
use aethel_core::sampling::RejectionError;
use aethel_core::{AethelError, IdentityError, SaapValidationError};

const RHO: [u8; 32] = [0x5au8; 32];

#[test]
fn every_saap_validation_error_maps() {
    assert_eq!(IdentityError::from(SaapValidationError::NormBoundViolation), IdentityError::NormBoundViolation);
    assert_eq!(IdentityError::from(SaapValidationError::ChallengeMismatch), IdentityError::ChallengeMismatch);
    assert_eq!(
        IdentityError::from(SaapValidationError::InvalidAttributeCommitment),
        IdentityError::InvalidAttributeCommitment
    );
}

#[test]
fn rejection_sampling_failure_maps() {
    assert_eq!(IdentityError::from(RejectionError::AllIterationsRejected), IdentityError::RejectionSamplingFailed);
}

#[test]
fn invalid_input_length_from_a_short_secret() {
    let short_secret = [0u8; 31];
    let result = checked_project_at_context(&short_secret, b"context", &RHO);
    assert_eq!(result.err(), Some(IdentityError::InvalidInputLength));
}

#[test]
fn invalid_input_length_from_short_randomness() {
    let secret = [0x42u8; 32];
    let short_rho = [0u8; 31];
    let result = checked_project_at_context(&secret, b"context", &short_rho);
    assert_eq!(result.err(), Some(IdentityError::InvalidInputLength));
}

#[test]
fn checked_project_at_context_succeeds_with_a_valid_secret() {
    let secret = [0x42u8; 32];
    assert!(checked_project_at_context(&secret, b"context", &RHO).is_ok());
}

#[test]
fn serialization_error_from_truncated_projection_bytes() {
    let truncated = [0u8; 10];
    let result = EphemeralProjection::from_bytes(&truncated);
    assert_eq!(result.err(), Some(IdentityError::SerializationError));
}

#[test]
fn ephemeral_projection_round_trips_through_bytes() {
    let secret = [0x99u8; 32];
    let projection = checked_project_at_context(&secret, b"round-trip", &RHO).unwrap();
    let bytes = projection.to_bytes();
    let decoded = EphemeralProjection::from_bytes(&bytes).expect("well-formed bytes must decode");
    assert_eq!(decoded.tau, projection.tau);
    assert_eq!(decoded.matrix_a.coeffs(), projection.matrix_a.coeffs());
    assert_eq!(decoded.public_b.coeffs(), projection.public_b.coeffs());
}

#[test]
fn threshold_not_met_with_fewer_than_three_shares() {
    let shares = SecretSharer::split_secret(12_345u64, 3, 5, 0xdead_beef);
    let result = SecretSharer::reconstruct_secret_checked(&shares[0..2]);
    assert_eq!(result.err(), Some(IdentityError::ThresholdNotMet));
}

#[test]
fn reconstruct_secret_checked_succeeds_at_the_threshold() {
    let secret = 12_345u64;
    let shares = SecretSharer::split_secret(secret, 3, 5, 0xdead_beef);
    let result = SecretSharer::reconstruct_secret_checked(&shares[0..3]);
    assert_eq!(result, Ok(secret));
}

#[test]
fn an_encoded_coefficient_at_q_is_a_serialization_error() {
    let secret = [0x99u8; 32];
    let projection = checked_project_at_context(&secret, b"round-trip", &RHO).unwrap();
    let mut bytes = projection.to_bytes();
    let q = 8_380_417u32.to_le_bytes();
    bytes[64..68].copy_from_slice(&q);
    assert_eq!(EphemeralProjection::from_bytes(&bytes).err(), Some(IdentityError::SerializationError));
}

#[test]
fn the_projection_encoding_has_the_documented_layout() {
    let secret = [0x10u8; 32];
    let projection = checked_project_at_context(&secret, b"layout", &RHO).unwrap();
    let bytes = projection.to_bytes();
    assert_eq!(bytes.len(), aethel_core::plp::EPHEMERAL_PROJECTION_BYTE_LEN);
    assert_eq!(&bytes[0..32], &projection.tau[..]);
    assert_eq!(&bytes[32..64], &projection.salt[..]);
    let c0 = u32::from_le_bytes([bytes[64], bytes[65], bytes[66], bytes[67]]);
    assert_eq!(c0, projection.public_b.coeffs()[0]);
}

#[test]
fn saap_errors_map_to_the_crate_error() {
    assert_eq!(
        AethelError::from(SaapValidationError::NormBoundViolation),
        AethelError::SaapError(SaapValidationError::NormBoundViolation)
    );
    assert_eq!(
        AethelError::from(SaapValidationError::ChallengeMismatch),
        AethelError::SaapError(SaapValidationError::ChallengeMismatch)
    );
}
