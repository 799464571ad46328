use aethel_core::credential::{
    from_plp, presentation_bytes, prove, verify, BlindedCredential, Credential, IssuerParams, CRED_ATTRIBUTES,
    CRED_L, IDENTITY_SLOT,
};
use aethel_core::plp::{self, EphemeralProjection, MasterIdentity};
use aethel_core::saap::{mod_q, poly_add, poly_mul_negacyclic, PARAM_Q};
use aethel_core::IdentityError;

const ISSUER_SEED: &[u8] = b"issuer seed for the test suite!!";
const ISSUE_R: &[u8] = b"issuance randomness for tests!!!";
const BLIND_R: &[u8] = b"blinding randomness for tests!!!";
const PRES_R: &[u8] = b"presentation randomness tests!!!";
const RHO: &[u8] = b"projection randomness for tests!";

fn identity(seed: u8) -> MasterIdentity {
    MasterIdentity::from_seed(&[seed; 32])
}

fn attrs() -> [u64; CRED_ATTRIBUTES] {
    [31, 1990, 7, 42, 100, 5, 9, 12345]
}

#[test]
fn the_two_polynomial_representations_agree() {
    let id = identity(0x42);
    let proj = id.project_at_context(b"arithmetic-check", RHO);

    let a_tau = from_plp(&proj.matrix_a);
    let s = from_plp(id.secret());
    let e_tau = from_plp(&plp::derive_error_tau(RHO, b"arithmetic-check"));

    let recomputed = poly_add(&poly_mul_negacyclic(&a_tau, &s), &e_tau);
    let expected = from_plp(&proj.public_b);

    assert_eq!(
        recomputed.coeffs, expected.coeffs,
        "SAAP arithmetic over the converted PLP values does not reproduce b_tau"
    );
}

#[test]
fn the_arithmetic_check_can_fail() {
    let id = identity(0x42);
    let other = identity(0x99);
    let proj = id.project_at_context(b"arithmetic-check", RHO);

    let a_tau = from_plp(&proj.matrix_a);
    let wrong_s = from_plp(other.secret());
    let e_tau = from_plp(&plp::derive_error_tau(RHO, b"arithmetic-check"));

    let recomputed = poly_add(&poly_mul_negacyclic(&a_tau, &wrong_s), &e_tau);
    assert_ne!(
        recomputed.coeffs,
        from_plp(&proj.public_b).coeffs,
        "a different secret reproduced b_tau, so the check proves nothing"
    );
}

#[test]
fn the_error_term_is_reproducible_from_rho_and_tau() {
    let a = plp::derive_error_tau(RHO, b"ctx");
    let b = plp::derive_error_tau(RHO, b"ctx");
    assert_eq!(a.coeffs(), b.coeffs());
    let different = plp::derive_error_tau(RHO, b"other-ctx");
    assert_ne!(a.coeffs(), different.coeffs(), "e_tau does not depend on tau");
}

struct Fixture {
    params: IssuerParams,
    blinded: BlindedCredential,
    id: MasterIdentity,
    proj: EphemeralProjection,
    tau: &'static [u8],
}

fn fixture(seed: u8, tau: &'static [u8]) -> Fixture {
    let params = IssuerParams::from_seed(ISSUER_SEED);
    let id = identity(seed);
    let cred = Credential::issue(&params, &id, &attrs(), ISSUE_R).expect("issue");
    let blinded = BlindedCredential::new(&params, &cred, BLIND_R).expect("blind");
    let proj = id.project_at_context(tau, RHO);
    Fixture { params, blinded, id, proj, tau }
}

#[test]
fn an_honest_presentation_verifies_against_the_plp_projection() {
    let f = fixture(0x42, b"context-alpha");
    let p = prove(&f.params, &f.blinded, &f.id, &f.proj, f.tau, RHO, 0b0000_0001, PRES_R).expect("prove");
    assert!(
        verify(&f.params, &p, f.blinded.commitment(), &f.proj, f.tau).expect("verify"),
        "an honestly generated presentation failed to verify"
    );
}

#[test]
fn a_presentation_does_not_verify_against_another_identity() {
    let f = fixture(0x42, b"context-alpha");
    let other = identity(0x99);
    let other_proj = other.project_at_context(b"context-alpha", RHO);

    let p = prove(&f.params, &f.blinded, &f.id, &f.proj, f.tau, RHO, 0b0000_0001, PRES_R).expect("prove");

    assert!(
        !verify(&f.params, &p, f.blinded.commitment(), &other_proj, f.tau).expect("verify"),
        "a presentation verified against a different identity's projection"
    );
}

#[test]
fn rewriting_a_disclosed_attribute_invalidates_the_presentation() {
    let f = fixture(0x42, b"context-alpha");
    let mut p = prove(&f.params, &f.blinded, &f.id, &f.proj, f.tau, RHO, 0b0000_0011, PRES_R).expect("prove");

    assert!(verify(&f.params, &p, f.blinded.commitment(), &f.proj, f.tau).expect("verify"));

    p.disclosed_values[0] += 1;
    assert!(
        !verify(&f.params, &p, f.blinded.commitment(), &f.proj, f.tau).expect("verify"),
        "a rewritten disclosed attribute still verified"
    );
}

#[test]
fn a_credential_from_another_issuer_fails() {
    let f = fixture(0x42, b"context-alpha");
    let rogue = IssuerParams::from_seed(b"a different issuer seed entirely");

    let p = prove(&f.params, &f.blinded, &f.id, &f.proj, f.tau, RHO, 0b0000_0001, PRES_R).expect("prove");

    assert!(
        !verify(&rogue, &p, f.blinded.commitment(), &f.proj, f.tau).expect("verify"),
        "a presentation verified under an issuer that never issued it"
    );
}

#[test]
fn a_fabricated_commitment_fails() {
    let f = fixture(0x42, b"context-alpha");
    let p = prove(&f.params, &f.blinded, &f.id, &f.proj, f.tau, RHO, 0b0000_0001, PRES_R).expect("prove");

    let mut fake = *f.blinded.commitment();
    fake[CRED_L].coeffs[0] = mod_q(fake[CRED_L].coeffs[0] as i64 + 1);

    assert!(
        !verify(&f.params, &p, &fake, &f.proj, f.tau).expect("verify"),
        "a presentation verified against a commitment it was not made over"
    );
}

#[test]
fn breaking_the_identity_linkage_is_detected() {
    let f = fixture(0x42, b"context-alpha");
    let mut p = prove(&f.params, &f.blinded, &f.id, &f.proj, f.tau, RHO, 0b0000_0001, PRES_R).expect("prove");

    p.z_m[IDENTITY_SLOT].coeffs[0] = mod_q(p.z_m[IDENTITY_SLOT].coeffs[0] as i64 + 1);

    assert!(
        !verify(&f.params, &p, f.blinded.commitment(), &f.proj, f.tau).expect("verify"),
        "z_m[0] and z_s were allowed to disagree"
    );
}

#[test]
fn a_tampered_response_is_rejected() {
    let f = fixture(0x42, b"context-alpha");
    let base = prove(&f.params, &f.blinded, &f.id, &f.proj, f.tau, RHO, 0b0000_0001, PRES_R).expect("prove");

    for which in 0..3 {
        let mut p = prove(&f.params, &f.blinded, &f.id, &f.proj, f.tau, RHO, 0b0000_0001, PRES_R).expect("prove");
        match which {
            0 => p.z_r[0].coeffs[5] = mod_q(p.z_r[0].coeffs[5] as i64 + 1),
            1 => p.z_e.coeffs[5] = mod_q(p.z_e.coeffs[5] as i64 + 1),
            _ => p.z_m[3].coeffs[5] = mod_q(p.z_m[3].coeffs[5] as i64 + 1),
        }
        assert!(
            !verify(&f.params, &p, f.blinded.commitment(), &f.proj, f.tau).expect("verify"),
            "tampering with response {which} was not detected"
        );
    }
    assert!(verify(&f.params, &base, f.blinded.commitment(), &f.proj, f.tau).expect("verify"));
}

#[test]
fn two_presentations_under_different_contexts_are_unlinkable() {
    let params = IssuerParams::from_seed(ISSUER_SEED);
    let id = identity(0x42);
    let cred = Credential::issue(&params, &id, &attrs(), ISSUE_R).expect("issue");

    let b1 = BlindedCredential::new(&params, &cred, b"blinding for presentation one!!!").expect("blind");
    let b2 = BlindedCredential::new(&params, &cred, b"blinding for presentation two!!!").expect("blind");

    let p1_proj = id.project_at_context(b"context-one", RHO);
    let p2_proj = id.project_at_context(b"context-two", RHO);

    let p1 = prove(&params, &b1, &id, &p1_proj, b"context-one", RHO, 0b0000_0001, PRES_R).expect("prove");
    let p2 = prove(&params, &b2, &id, &p2_proj, b"context-two", RHO, 0b0000_0001, PRES_R).expect("prove");

    assert!(verify(&params, &p1, b1.commitment(), &p1_proj, b"context-one").expect("verify"));
    assert!(verify(&params, &p2, b2.commitment(), &p2_proj, b"context-two").expect("verify"));

    assert_ne!(
        b1.commitment()[0].coeffs,
        b2.commitment()[0].coeffs,
        "two presentations reused the same blinded commitment"
    );

    assert_ne!(p1.z_s.coeffs, p2.z_s.coeffs, "z_s was reused across contexts");
    assert_ne!(p1.z_r[0].coeffs, p2.z_r[0].coeffs, "z_r was reused across contexts");
    assert_ne!(p1.challenge.coeffs, p2.challenge.coeffs, "the challenge was reused across contexts");
}

#[test]
fn an_undisclosed_attribute_does_not_appear_in_the_transcript() {
    let params = IssuerParams::from_seed(ISSUER_SEED);
    let id = identity(0x42);
    let secret_attr = 0x0011_2233u64;
    let mut values = attrs();
    values[3] = secret_attr;

    let cred = Credential::issue(&params, &id, &values, ISSUE_R).expect("issue");
    let blinded = BlindedCredential::new(&params, &cred, BLIND_R).expect("blind");
    let proj = id.project_at_context(b"context-alpha", RHO);

    let p = prove(&params, &blinded, &id, &proj, b"context-alpha", RHO, 0b0000_0001, PRES_R).expect("prove");
    let bytes = presentation_bytes(&p);

    assert!(
        !bytes.windows(8).any(|w| w == secret_attr.to_le_bytes()),
        "the hidden attribute value appears verbatim in the transcript"
    );
    assert_eq!(p.disclosed_values[3], 0, "a hidden attribute was published in disclosed_values");
    assert_ne!(p.z_m[4].coeffs[0], secret_attr as i32, "the hidden attribute's response is the value itself");
}

#[test]
fn the_transcript_leak_check_can_detect_a_leak() {
    let secret_attr = 0x0011_2233u64;
    let mut leaky = Vec::new();
    leaky.extend_from_slice(&[0u8; 16]);
    leaky.extend_from_slice(&secret_attr.to_le_bytes());
    assert!(
        leaky.windows(8).any(|w| w == secret_attr.to_le_bytes()),
        "the leak check cannot see the value even when it is present"
    );
}

#[test]
fn presentations_depend_on_their_randomness() {
    let f = fixture(0x42, b"context-alpha");
    let a = prove(&f.params, &f.blinded, &f.id, &f.proj, f.tau, RHO, 1, PRES_R).expect("prove");
    let b = prove(&f.params, &f.blinded, &f.id, &f.proj, f.tau, RHO, 1, PRES_R).expect("prove");
    let c = prove(&f.params, &f.blinded, &f.id, &f.proj, f.tau, RHO, 1, b"different presentation rand!!!!!")
        .expect("prove");

    assert_eq!(a.z_s.coeffs, b.z_s.coeffs);
    assert_ne!(a.z_s.coeffs, c.z_s.coeffs, "the presentation ignores its randomness");
}

#[test]
fn short_randomness_is_refused() {
    let params = IssuerParams::from_seed(ISSUER_SEED);
    let id = identity(0x42);
    assert!(matches!(
        Credential::issue(&params, &id, &attrs(), b"short"),
        Err(IdentityError::InvalidInputLength)
    ));
}

#[test]
fn an_attribute_at_or_above_q_is_refused() {
    let params = IssuerParams::from_seed(ISSUER_SEED);
    let id = identity(0x42);
    let mut values = attrs();
    values[0] = PARAM_Q as u64;
    assert!(
        matches!(
            Credential::issue(&params, &id, &values, ISSUE_R),
            Err(IdentityError::InvalidInputLength)
        ),
        "an attribute that cannot round-trip was accepted"
    );
}

#[test]
fn every_disclosure_pattern_verifies() {
    let f = fixture(0x42, b"context-alpha");
    for mask in [0u8, 1, 0b1010_1010, 0b0111_1111, 0xFF] {
        let p = prove(&f.params, &f.blinded, &f.id, &f.proj, f.tau, RHO, mask, PRES_R).expect("prove");
        assert!(
            verify(&f.params, &p, f.blinded.commitment(), &f.proj, f.tau).expect("verify"),
            "disclosure mask {mask:#010b} failed to verify"
        );
    }
}

#[test]
fn short_blinding_and_presentation_randomness_are_refused() {
    let f = fixture(0x42, b"context-alpha");
    let params = IssuerParams::from_seed(ISSUER_SEED);
    let cred = Credential::issue(&params, &f.id, &attrs(), ISSUE_R).expect("issue");
    assert!(matches!(
        BlindedCredential::new(&params, &cred, b"too short"),
        Err(IdentityError::InvalidInputLength)
    ));
    assert!(matches!(
        prove(&f.params, &f.blinded, &f.id, &f.proj, f.tau, RHO, 1, b"too short"),
        Err(IdentityError::InvalidInputLength)
    ));
}

#[test]
fn a_disclosed_value_at_or_above_q_is_an_error() {
    let f = fixture(0x42, b"context-alpha");
    let mut p = prove(&f.params, &f.blinded, &f.id, &f.proj, f.tau, RHO, 0b0000_0001, PRES_R).expect("prove");
    p.disclosed_values[0] = PARAM_Q as u64;
    assert!(verify(&f.params, &p, f.blinded.commitment(), &f.proj, f.tau).is_err());
}

#[test]
fn a_disclosed_attribute_in_the_upper_half_is_published_and_verifies() {
    let params = IssuerParams::from_seed(ISSUER_SEED);
    let id = identity(0x42);
    let mut values = attrs();
    values[1] = PARAM_Q as u64 - 1;
    values[2] = PARAM_Q as u64 / 2 + 1;
    let cred = Credential::issue(&params, &id, &values, ISSUE_R).expect("issue");
    let blinded = BlindedCredential::new(&params, &cred, BLIND_R).expect("blind");
    let proj = id.project_at_context(b"context-alpha", RHO);
    let shown = prove(&params, &blinded, &id, &proj, b"context-alpha", RHO, 0b0000_0110, PRES_R).expect("prove");
    assert_eq!(shown.disclosed_values[1], PARAM_Q as u64 - 1);
    assert_eq!(shown.disclosed_values[2], PARAM_Q as u64 / 2 + 1);
    assert_eq!(shown.disclosed_values[0], 0);
    assert!(verify(&params, &shown, blinded.commitment(), &proj, b"context-alpha").expect("verify"));
}
