use aethel_core::signing::{verify, Identity, MLDSA65_PUBLIC_KEY_BYTES, MLDSA65_SIGNATURE_BYTES};
use aethel_core::IdentityError;

const ENTROPY: &[u8; 32] = b"deterministic entropy for tests!";

#[test]
fn generation_is_deterministic() {
    let a = Identity::generate(ENTROPY).expect("generate");
    let b = Identity::generate(ENTROPY).expect("generate");
    assert_eq!(a.public_key(), b.public_key());
    assert_eq!(a.plp_seed(), b.plp_seed());
}

#[test]
fn different_entropy_yields_a_different_identity() {
    let a = Identity::generate(ENTROPY).expect("generate");
    let b = Identity::generate(b"a completely different entropy!!").expect("generate");
    assert_ne!(a.public_key(), b.public_key(), "two different entropy inputs produced the same signing key");
    assert_ne!(a.plp_seed(), b.plp_seed(), "two different entropy inputs produced the same PLP seed");
}

#[test]
fn the_plp_seed_is_not_the_signing_key() {
    let id = Identity::generate(ENTROPY).expect("generate");
    let pk = id.public_key();
    assert!(!pk.windows(32).any(|w| w == id.plp_seed()), "the PLP seed appears verbatim inside the public key");
}

#[test]
fn short_entropy_is_refused() {
    for len in [0usize, 1, 31] {
        let entropy = vec![0xABu8; len];
        assert!(
            matches!(Identity::generate(&entropy), Err(IdentityError::InvalidInputLength)),
            "{len} bytes of entropy was accepted"
        );
    }
    assert!(Identity::generate(&[0xABu8; 32]).is_ok(), "32 bytes was refused");
}

#[test]
fn sign_and_verify_round_trip() {
    let id = Identity::generate(ENTROPY).expect("generate");
    let msg = b"the message that was actually signed";
    let sig = id.sign(msg).expect("sign");
    assert_eq!(verify(&id.public_key(), msg, &sig), Ok(true));
}

#[test]
fn a_tampered_message_does_not_verify() {
    let id = Identity::generate(ENTROPY).expect("generate");
    let sig = id.sign(b"transfer 10 to alice").expect("sign");
    assert_eq!(
        verify(&id.public_key(), b"transfer 99 to alice", &sig),
        Ok(false),
        "a signature verified against a message it was not made over"
    );
}

#[test]
fn a_wrong_key_does_not_verify() {
    let signer = Identity::generate(ENTROPY).expect("generate");
    let other = Identity::generate(b"a completely different entropy!!").expect("generate");
    let msg = b"signed by exactly one of these";
    let sig = signer.sign(msg).expect("sign");
    assert_eq!(
        verify(&other.public_key(), msg, &sig),
        Ok(false),
        "a signature verified under a key that did not produce it"
    );
}

#[test]
fn a_tampered_signature_does_not_verify() {
    let id = Identity::generate(ENTROPY).expect("generate");
    let msg = b"message";
    let mut sig = id.sign(msg).expect("sign");
    sig[0] ^= 0x01;
    assert_eq!(verify(&id.public_key(), msg, &sig), Ok(false));
}

#[test]
fn signing_is_deterministic_across_calls() {
    let id = Identity::generate(ENTROPY).expect("generate");
    let msg = b"same message, twice";
    assert_eq!(id.sign(msg).unwrap(), id.sign(msg).unwrap());
}

#[test]
fn the_whole_entropy_input_is_absorbed() {
    let a = Identity::generate(ENTROPY).expect("generate");
    let longer: Vec<u8> = ENTROPY.iter().copied().chain([0u8; 8]).collect();
    let b = Identity::generate(&longer).expect("generate");
    assert_ne!(a.plp_seed(), b.plp_seed(), "the whole entropy input must be absorbed");
}

#[test]
fn malformed_key_material_is_an_error() {
    let id = Identity::generate(ENTROPY).expect("generate");
    let sig = id.sign(b"m").expect("sign");
    assert_eq!(verify(&[0u8; 3], b"m", &sig), Err(IdentityError::SerializationError));
    assert_eq!(verify(&[], b"m", &sig), Err(IdentityError::SerializationError));
    assert_eq!(verify(&id.public_key(), b"m", &[0u8; 5]), Err(IdentityError::SerializationError));
    assert_eq!(verify(&id.public_key(), b"m", &sig), Ok(true));
}

#[test]
fn keys_and_signatures_have_their_encoded_lengths() {
    let id = Identity::generate(ENTROPY).expect("generate");
    assert_eq!(id.public_key().len(), MLDSA65_PUBLIC_KEY_BYTES);
    assert_eq!(MLDSA65_PUBLIC_KEY_BYTES, 1952);
    let sig = id.sign(b"length check").expect("sign");
    assert_eq!(sig.len(), MLDSA65_SIGNATURE_BYTES);
    assert_eq!(MLDSA65_SIGNATURE_BYTES, 3309);
}

#[test]
fn equal_entropy_gives_equal_public_keys_and_signatures() {
    let a = Identity::generate(&[0xAB; 32]).expect("generate");
    let b = Identity::generate(&[0xAB; 32]).expect("generate");
    assert_eq!(a.public_key(), b.public_key());
    assert_eq!(a.sign(b"msg").expect("sign"), b.sign(b"msg").expect("sign"));
    for n in [0usize, 1, 31] {
        assert!(matches!(Identity::generate(&vec![0xAB; n]), Err(IdentityError::InvalidInputLength)));
    }
}
