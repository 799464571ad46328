use aethel_core::component::{
    plp_project_at_context, plp_prove_identity, plp_verify, saap_verify, saap_verify_presentation, zk_proof_from_coeffs, CredentialPresentation, OwnedCredential, OwnedIdentity,
};
use aethel_core::plp::{MasterIdentity, Verifier};
use aethel_core::IdentityError;

const ENTROPY: &[u8; 32] = b"deterministic entropy for tests!";
const ISSUER_SEED: &[u8] = b"issuer seed for the test suite!!";
const R32: &[u8; 32] = b"thirty-two bytes of randomness!!";

#[test]
fn a_short_secret_is_refused_by_the_prover_entry_point() {
    let r = plp_prove_identity(&[0u8; 31], b"ctx", &[0u8; 32]);
    assert!(matches!(r, Err(IdentityError::InvalidInputLength)));
    let r = plp_prove_identity(&[0u8; 32], b"ctx", &[0u8; 31]);
    assert!(matches!(r, Err(IdentityError::InvalidInputLength)));
}

#[test]
fn a_proof_from_raw_secret_bytes_verifies_against_the_native_projection() {
    let secret = [0x11u8; 32];
    let rho = [0x77u8; 32];
    let proof = plp_prove_identity(&secret, b"round-trip", &rho).expect("prove");
    let proj = MasterIdentity::from_seed(&secret).project_at_context(b"round-trip", &rho);
    assert!(Verifier::verify(&proj, &proof), "a proof from raw secret bytes failed to verify");
}

#[test]
fn a_generated_identity_projects_and_proves() {
    let id = OwnedIdentity::generate(ENTROPY).expect("generate");
    let proj = id.project_at_context(b"context-one", R32).expect("project");
    let proof = id.prove(b"context-one", R32).expect("prove");
    assert!(Verifier::verify(&proj, &proof), "a proof from a generated identity failed to verify");
    let other = id.project_at_context(b"context-two", R32).expect("project");
    assert_ne!(proj.public_b.coeffs(), other.public_b.coeffs(), "two contexts produced the same projection");
}

#[test]
fn the_owned_identity_enforces_the_randomness_floor() {
    let id = OwnedIdentity::generate(ENTROPY).expect("generate");
    assert!(matches!(id.project_at_context(b"ctx", &[0u8; 31]), Err(IdentityError::InvalidInputLength)));
    assert!(matches!(id.prove(b"ctx", &[0u8; 31]), Err(IdentityError::InvalidInputLength)));
    assert!(matches!(OwnedIdentity::generate(b"too short"), Err(IdentityError::InvalidInputLength)));
}

#[test]
fn owned_identity_signatures_verify() {
    let id = OwnedIdentity::generate(ENTROPY).expect("generate");
    let sig = id.sign(b"the message").expect("sign");
    assert_eq!(aethel_core::verify(&id.public_key(), b"the message", &sig), Ok(true));
}

fn presented() -> (OwnedIdentity, CredentialPresentation) {
    let holder = OwnedIdentity::generate(ENTROPY).expect("generate");
    let attrs = [31u64, 1990, 7, 42, 100, 5, 9, 12345];
    let cred = OwnedCredential::issue(&holder, ISSUER_SEED.to_vec(), &attrs, R32).expect("issue");
    let p = cred
        .present(
            &holder,
            b"ctx",
            b"projection randomness for tests!",
            0b0000_0011,
            b"blinding randomness for tests!!!",
            b"presentation randomness tests!!!",
        )
        .expect("present");
    (holder, p)
}

#[test]
fn a_flat_presentation_verifies_and_rejects_another_context() {
    let (holder, p) = presented();
    let proj = holder.project_at_context(b"ctx", b"projection randomness for tests!").expect("project");
    assert_eq!(saap_verify_presentation(ISSUER_SEED, &p, &proj, b"ctx"), Ok(true));
    assert_eq!(saap_verify_presentation(ISSUER_SEED, &p, &proj, b"other-ctx"), Ok(false));
    assert_eq!(p.disclosed_values, vec![31, 1990, 0, 0, 0, 0, 0, 0]);
}

#[test]
fn a_flat_presentation_does_not_verify_under_another_issuer() {
    let (holder, p) = presented();
    let proj = holder.project_at_context(b"ctx", b"projection randomness for tests!").expect("project");
    assert_eq!(saap_verify_presentation(b"another issuer seed", &p, &proj, b"ctx"), Ok(false));
}

#[test]
fn a_flat_presentation_with_a_short_list_is_an_error() {
    let (holder, mut p) = presented();
    let proj = holder.project_at_context(b"ctx", b"projection randomness for tests!").expect("project");
    p.z_s.pop();
    assert_eq!(saap_verify_presentation(ISSUER_SEED, &p, &proj, b"ctx"), Err(IdentityError::InvalidInputLength));
}

#[test]
fn issuing_needs_exactly_eight_attributes() {
    let holder = OwnedIdentity::generate(ENTROPY).expect("generate");
    assert!(matches!(
        OwnedCredential::issue(&holder, ISSUER_SEED.to_vec(), &[1u64, 2, 3], R32),
        Err(IdentityError::InvalidInputLength)
    ));
}

#[test]
fn projecting_raw_secret_bytes_matches_the_native_projection() {
    let secret = [0x11u8; 32];
    let rho = [0x77u8; 32];
    let proj = plp_project_at_context(&secret, b"ctx", &rho).expect("project");
    let native = MasterIdentity::from_seed(&secret).project_at_context(b"ctx", &rho);
    assert_eq!(proj.matrix_a.coeffs(), native.matrix_a.coeffs());
    assert_eq!(proj.public_b.coeffs(), native.public_b.coeffs());
    assert!(matches!(plp_project_at_context(&secret[..31], b"ctx", &rho), Err(IdentityError::InvalidInputLength)));
    assert!(matches!(plp_project_at_context(&secret, b"ctx", &rho[..31]), Err(IdentityError::InvalidInputLength)));
}

#[test]
fn a_proof_as_coefficient_lists_verifies_and_a_tampered_one_does_not() {
    let secret = [0x11u8; 32];
    let rho = [0x77u8; 32];
    let proj = plp_project_at_context(&secret, b"lists", &rho).expect("project");
    let proof = plp_prove_identity(&secret, b"lists", &rho).expect("prove");
    let w = proof.commitment_w.coeffs().to_vec();
    let c = proof.challenge_c.coeffs().to_vec();
    let z = proof.response_z.coeffs().to_vec();
    assert_eq!(plp_verify(&proj, &w, &c, &z), Ok(true));
    let mut bent = z.clone();
    bent[0] = (bent[0] + 1) % 8_380_417;
    assert_eq!(plp_verify(&proj, &w, &c, &bent), Ok(false));
    let parsed = zk_proof_from_coeffs(&w, &c, &z).expect("parse");
    assert_eq!(parsed.response_z.coeffs(), proof.response_z.coeffs());
}

#[test]
fn malformed_coefficient_lists_are_a_serialization_error() {
    let proj = plp_project_at_context(&[0x11u8; 32], b"lists", &[0x77u8; 32]).expect("project");
    let ok = vec![0u32; 256];
    assert_eq!(plp_verify(&proj, &ok[..255], &ok, &ok), Err(IdentityError::SerializationError));
    let mut high = ok.clone();
    high[7] = 8_380_417;
    assert_eq!(plp_verify(&proj, &ok, &high, &ok), Err(IdentityError::SerializationError));
    assert!(matches!(zk_proof_from_coeffs(&ok, &ok, &high), Err(IdentityError::SerializationError)));
}

#[test]
fn a_context_mismatch_is_false_before_any_list_is_read() {
    let (holder, mut p) = presented();
    let proj = holder.project_at_context(b"ctx", b"projection randomness for tests!").expect("project");
    p.z_s = vec![i32::MIN; 3];
    p.z_r.clear();
    assert_eq!(saap_verify_presentation(ISSUER_SEED, &p, &proj, b"other-ctx"), Ok(false));
}

#[test]
fn the_single_response_verifier_denies() {
    assert_eq!(saap_verify(b"any proof bytes", b"ctx"), Ok(false));
    assert_eq!(saap_verify(&[], &[]), Ok(false));
}

#[test]
fn owned_identities_from_equal_entropy_share_a_public_key() {
    let a = OwnedIdentity::generate(ENTROPY).expect("generate");
    let b = OwnedIdentity::generate(ENTROPY).expect("generate");
    assert_eq!(a.public_key(), b.public_key());
    assert_eq!(a.public_key().len(), 1952);
    let sig = a.sign(b"owned").expect("sign");
    assert_eq!(sig, b.sign(b"owned").expect("sign"));
    assert_eq!(aethel_core::verify(&b.public_key(), b"owned", &sig), Ok(true));
}
