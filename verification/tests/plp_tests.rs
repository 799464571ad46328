use aethel_core::plp::{
    derive_context_matrix, derive_error_tau, hash_to_challenge, ntt_forward, ntt_inverse, pad_tau, poly_mul_ntt,
    EphemeralProjection, MasterIdentity, Poly, Prover, Verifier, ZkIdentityProof, DOMAIN_MASK, N, Q,
    REJECTION_THRESHOLD,
};
use aethel_core::IdentityError;

fn test_seed() -> [u8; 32] {
    [0x42u8; 32]
}

fn test_rho() -> [u8; 32] {
    [0xa5u8; 32]
}

fn poly_from(f: impl Fn(usize) -> u32) -> Poly {
    let mut c = [0u32; N];
    for (i, x) in c.iter_mut().enumerate() {
        *x = f(i);
    }
    Poly::from_coeffs(c)
}

fn with_coeff(p: &Poly, i: usize, v: u32) -> Poly {
    let mut c = *p.coeffs();
    c[i] = v;
    Poly::from_coeffs(c)
}

const ATTACK_Q: i64 = 8_380_417;

fn attack_mod_inv(a: i64) -> i64 {
    let mut result = 1i64;
    let mut base = a.rem_euclid(ATTACK_Q);
    let mut exp = ATTACK_Q - 2;
    while exp > 0 {
        if exp & 1 == 1 {
            result = (result * base) % ATTACK_Q;
        }
        base = (base * base) % ATTACK_Q;
        exp >>= 1;
    }
    result
}

fn attack_centered(x: i64) -> i64 {
    let r = x.rem_euclid(ATTACK_Q);
    if r > ATTACK_Q / 2 {
        r - ATTACK_Q
    } else {
        r
    }
}

fn attack_sub(a: &Poly, b: &Poly) -> Poly {
    poly_from(|i| (a.coeffs()[i] as i64 - b.coeffs()[i] as i64).rem_euclid(ATTACK_Q) as u32)
}

fn attack_ring_divide(num: &Poly, den: &Poly) -> Option<Poly> {
    let mut n = *num;
    let mut d = *den;
    ntt_forward(&mut n);
    ntt_forward(&mut d);
    let mut q = [0u32; N];
    for i in 0..N {
        let di = d.coeffs()[i] as i64 % ATTACK_Q;
        if di == 0 {
            return None;
        }
        let ni = n.coeffs()[i] as i64 % ATTACK_Q;
        q[i] = ((ni * attack_mod_inv(di)) % ATTACK_Q) as u32;
    }
    let mut q = Poly::from_coeffs(q);
    ntt_inverse(&mut q);
    Some(q)
}

#[test]
fn ntt_forward_and_inverse_round_trip() {
    let original = poly_from(|i| ((i * 13 + 5) % 4096) as u32);

    let mut round_tripped = original;
    ntt_forward(&mut round_tripped);
    ntt_inverse(&mut round_tripped);

    let mismatches = (0..N).filter(|&i| original.coeffs()[i] != round_tripped.coeffs()[i]).count();
    assert_eq!(
        mismatches, 0,
        "ntt_inverse(ntt_forward(x)) != x on {}/{} coefficients - the NTT is not self-inverse",
        mismatches, N
    );
}

#[test]
fn ntt_and_schoolbook_multiplication_agree() {
    let a = poly_from(|i| ((i * 31 + 7) % 1000) as u32);
    let b = poly_from(|i| ((i * 17 + 3) % 1000) as u32);

    let school = a.mul_schoolbook(&b);
    let ntt = poly_mul_ntt(&a, &b);

    let mismatches = (0..N).filter(|&i| school.coeffs()[i] != ntt.coeffs()[i]).count();
    assert_eq!(mismatches, 0, "mul_schoolbook and poly_mul_ntt disagree on {}/{} coefficients", mismatches, N);
}

#[test]
fn the_recovery_machinery_works_when_a_mask_is_genuinely_shared() {
    let identity = MasterIdentity::from_seed(&test_seed());
    let proj = identity.project_at_context(b"ctx", &test_rho());

    let y = poly_from(|i| ((i as u64 * 7919 + 13) % 100_000) as u32);
    let c1 = hash_to_challenge(&proj.matrix_a, &proj.tau, &[1u8; 32]);
    let c2 = hash_to_challenge(&proj.matrix_a, &proj.tau, &[2u8; 32]);
    assert_ne!(c1.coeffs(), c2.coeffs(), "setup: challenges must differ");

    let z1 = y.add(&c1.mul_schoolbook(identity.secret()));
    let z2 = y.add(&c2.mul_schoolbook(identity.secret()));

    let recovered = attack_ring_divide(&attack_sub(&z1, &z2), &attack_sub(&c1, &c2))
        .expect("control: the challenge difference should be invertible");

    let mut max_abs = 0i64;
    for i in 0..N {
        max_abs = max_abs.max(attack_centered(recovered.coeffs()[i] as i64).abs());
    }
    assert!(max_abs <= 4, "the recovery machinery failed on a synthetic shared-mask case (norm {})", max_abs);

    for i in 0..N {
        assert_eq!(
            attack_centered(recovered.coeffs()[i] as i64),
            attack_centered(identity.secret().coeffs()[i] as i64),
            "recovered coefficient {} does not match the real secret",
            i
        );
    }
}

#[test]
fn two_proofs_at_different_contexts_do_not_leak_the_secret() {
    let mut attempts = 0usize;
    let mut recoveries = 0usize;

    for k in 0u8..64 {
        let seed = [k.wrapping_mul(7).wrapping_add(1); 32];
        let identity = MasterIdentity::from_seed(&seed);

        let proj1 = identity.project_at_context(b"context-one", &[0x11u8; 32]);
        let proj2 = identity.project_at_context(b"context-two", &[0x22u8; 32]);

        let (p1, p2) = match (
            Prover::prove_identity(&identity, &proj1, &seed),
            Prover::prove_identity(&identity, &proj2, &seed),
        ) {
            (Ok(a), Ok(b)) => (a, b),
            _ => continue,
        };

        if p1.challenge_c.coeffs() == p2.challenge_c.coeffs() {
            continue;
        }
        attempts += 1;

        let z_diff = attack_sub(&p1.response_z, &p2.response_z);
        let c_diff = attack_sub(&p1.challenge_c, &p2.challenge_c);

        let recovered = match attack_ring_divide(&z_diff, &c_diff) {
            Some(s) => s,
            None => continue,
        };

        let mut max_abs = 0i64;
        for i in 0..N {
            max_abs = max_abs.max(attack_centered(recovered.coeffs()[i] as i64).abs());
        }
        if max_abs <= 4 {
            recoveries += 1;
        }
    }

    assert_eq!(
        recoveries, 0,
        "master secret recovered from two proofs at different contexts in {}/{} sampled identities",
        recoveries, attempts
    );
}

#[test]
fn every_returned_proof_satisfies_the_norm_bound_and_verifies() {
    let mut checked = 0usize;

    for k in 0u8..48 {
        let seed = [k.wrapping_mul(11).wrapping_add(3); 32];
        let identity = MasterIdentity::from_seed(&seed);

        for ctx in 0u8..4 {
            let tau = [ctx.wrapping_mul(37).wrapping_add(5); 32];
            let proj = identity.project_at_context(&tau, &[0x5au8; 32]);

            let proof = match Prover::prove_identity(&identity, &proj, &seed) {
                Ok(p) => p,
                Err(IdentityError::RejectionSamplingFailed) => continue,
                Err(e) => panic!("unexpected error from prove_identity: {e:?}"),
            };

            assert!(
                proof.response_z.infinity_norm() < REJECTION_THRESHOLD as i64,
                "prove_identity returned a response outside the norm bound (norm {}, bound {})",
                proof.response_z.infinity_norm(),
                REJECTION_THRESHOLD
            );
            assert!(
                Verifier::verify(&proj, &proof),
                "prove_identity returned a proof that does not verify against its projection"
            );
            checked += 1;
        }
    }

    assert!(checked > 0, "no proof was produced at all, so this test asserted nothing");
}

#[test]
fn the_norm_bound_check_detects_a_violating_response() {
    let seed = test_seed();
    let identity = MasterIdentity::from_seed(&seed);
    let proj = identity.project_at_context(b"norm-control", &test_rho());

    let mut proof = Prover::prove_identity(&identity, &proj, &seed)
        .expect("honest proving must not exhaust rejection sampling");

    proof.response_z = with_coeff(&proof.response_z, 0, REJECTION_THRESHOLD as u32 + 1);

    assert!(
        proof.response_z.infinity_norm() >= REJECTION_THRESHOLD as i64,
        "control: the constructed response should violate the norm bound"
    );
    assert!(
        !Verifier::verify(&proj, &proof),
        "control: the verifier accepted a response outside the norm bound"
    );
}

#[test]
fn no_tau_independent_mask_derivation_remains() {
    assert_ne!(&DOMAIN_MASK[..], &b"AETHEL_MASK_V1"[..], "the tau-unbound mask separator is back");
    assert_eq!(&DOMAIN_MASK[..], &b"AETHEL_MASK_V2"[..]);
}

#[test]
fn test_poly_add_sub() {
    let a = with_coeff(&Poly::zero(), 0, 100);
    let b = with_coeff(&Poly::zero(), 0, 200);
    let c = a.add(&b);
    assert_eq!(c.coeffs()[0], 300);
    let d = c.sub(&b);
    assert_eq!(d.coeffs()[0], 100);
}

#[test]
fn test_derive_context_matrix_deterministic() {
    let salt = [0x5au8; 32];
    let tau = &pad_tau(b"test_context_tau");
    let a1 = derive_context_matrix(tau, &salt);
    let a2 = derive_context_matrix(tau, &salt);
    assert_eq!(a1.coeffs(), a2.coeffs(), "derivation must be deterministic in (tau, salt)");

    let other = derive_context_matrix(tau, &[0xa5u8; 32]);
    assert_ne!(a1.coeffs(), other.coeffs(), "a different salt at the same tau produced the same matrix");
    for &c in a1.coeffs().iter() {
        assert!(c < Q, "coefficient {} >= Q", c);
    }
}

#[test]
fn test_hash_to_challenge_sparse() {
    let w = Poly::zero();
    let c = hash_to_challenge(&w, &[0x11u8; 32], &[0x22u8; 32]);
    let nonzero = c.coeffs().iter().filter(|&&x| x != 0).count();
    assert_eq!(nonzero, 60, "challenge should have exactly 60 non-zero coefficients");
}

fn averaging_attack_recovered_coeffs(samples: &[Poly], target: &Poly) -> usize {
    let count = samples.len() as i64;
    let mut recovered = 0usize;
    for j in 0..N {
        let sum: i64 = samples.iter().map(|p| p.coeffs()[j] as i64).sum();
        let mean = (sum + count / 2) / count;
        if mean == target.coeffs()[j] as i64 {
            recovered += 1;
        }
    }
    recovered
}

#[test]
fn the_averaging_attack_recovers_a_s_under_a_shared_context_matrix() {
    let identity = MasterIdentity::from_seed(&test_seed());
    let tau = pad_tau(b"block-height-1000");

    let fixed_salt = [0u8; 32];
    let matrix_a = derive_context_matrix(&tau, &fixed_salt);

    let samples: Vec<Poly> = (0u8..64)
        .map(|i| {
            let rho = [i.wrapping_mul(7).wrapping_add(1); 32];
            let e = derive_error_tau(&rho, &tau);
            matrix_a.mul_schoolbook(identity.secret()).add(&e)
        })
        .collect();
    let target = matrix_a.mul_schoolbook(identity.secret());

    let recovered = averaging_attack_recovered_coeffs(&samples, &target);
    assert!(
        recovered > N * 9 / 10,
        "the averaging attack recovered only {recovered}/{N} coefficients against a shared matrix"
    );
}

#[test]
fn a_reused_tau_does_not_leak_a_s() {
    let identity = MasterIdentity::from_seed(&test_seed());
    let tau = b"block-height-1000";

    let projections: Vec<EphemeralProjection> = (0u8..64)
        .map(|i| {
            let rho = [i.wrapping_mul(7).wrapping_add(1); 32];
            identity.project_at_context(tau, &rho)
        })
        .collect();

    assert!(projections.windows(2).all(|w| w[0].tau == w[1].tau), "test setup: all projections must share tau");
    assert_ne!(
        projections[0].matrix_a.coeffs(),
        projections[1].matrix_a.coeffs(),
        "test setup: two projections at one tau must not share A"
    );

    let samples: Vec<Poly> = projections.iter().map(|p| p.public_b).collect();
    let target = projections[0].matrix_a.mul_schoolbook(identity.secret());

    let recovered = averaging_attack_recovered_coeffs(&samples, &target);
    assert!(
        recovered < N / 10,
        "averaging 64 projections at one tau recovered {recovered}/{N} coefficients of A*s"
    );
}

#[test]
fn reusing_rho_at_one_tau_reinstates_the_shared_matrix() {
    let identity = MasterIdentity::from_seed(&test_seed());
    let rho = [0x5au8; 32];
    let a = identity.project_at_context(b"one-tau", &rho);
    let b = identity.project_at_context(b"one-tau", &rho);

    assert_eq!(
        a.matrix_a.coeffs(),
        b.matrix_a.coeffs(),
        "same (tau, rho) is deterministic, so it must reproduce one matrix"
    );
    assert_eq!(a.public_b.coeffs(), b.public_b.coeffs(), "and therefore one projection");
}

#[test]
fn test_prove_verify_roundtrip() {
    let seed = test_seed();
    let identity = MasterIdentity::from_seed(&seed);
    let tau = b"block_1000_context";
    let proj = identity.project_at_context(tau, &test_rho());
    let proof = Prover::prove_identity(&identity, &proj, &seed)
        .expect("honest proving must not exhaust rejection sampling");
    assert!(Verifier::verify(&proj, &proof), "proof should verify");
}

#[test]
fn test_cross_context_unlinkability() {
    let seed = test_seed();
    let identity = MasterIdentity::from_seed(&seed);
    let proj1 = identity.project_at_context(b"context_1", &test_rho());
    let proj2 = identity.project_at_context(b"context_2", &test_rho());
    assert_ne!(proj1.public_b.coeffs(), proj2.public_b.coeffs());
    let proof1 = Prover::prove_identity(&identity, &proj1, &seed)
        .expect("honest proving must not exhaust rejection sampling");
    assert!(!Verifier::verify(&proj2, &proof1), "cross-context replay should fail");
}

#[test]
fn test_key_generation() {
    let identity = MasterIdentity::from_seed(&test_seed());

    let all_zero = identity.secret().coeffs().iter().all(|&c| c == 0);
    assert!(!all_zero, "Secret key should not be all-zero (negligible probability)");

    for &coeff in identity.secret().coeffs().iter() {
        assert!(coeff < Q, "Secret key coefficient {} out of range [0, Q-1]", coeff);
    }
}

#[test]
fn test_key_generation_uniqueness() {
    let identity_a = MasterIdentity::from_seed(&test_seed());
    let identity_b = MasterIdentity::from_seed(&[0xABu8; 32]);

    let keys_equal = identity_a
        .secret()
        .coeffs()
        .iter()
        .zip(identity_b.secret().coeffs().iter())
        .all(|(a, b)| a == b);

    assert!(!keys_equal, "Two independently generated secret keys should differ");
}

#[test]
fn test_tampered_proof_rejected() {
    let seed = test_seed();
    let identity = MasterIdentity::from_seed(&seed);

    let tau = b"tamper_test_context_777";
    let proj = identity.project_at_context(tau, &test_rho());
    let mut proof = Prover::prove_identity(&identity, &proj, &seed)
        .expect("honest proving must not exhaust rejection sampling");

    let z0 = proof.response_z.coeffs()[0];
    proof.response_z = with_coeff(&proof.response_z, 0, z0.wrapping_add(1));

    assert!(!Verifier::verify(&proj, &proof), "Tampered proof should be rejected by the verifier");
}

#[test]
fn zeroize_clears_every_coefficient_of_the_secret() {
    let mut identity = MasterIdentity::from_seed(&[0x77u8; 32]);
    assert!(
        identity.secret().coeffs().iter().any(|&c| c != 0),
        "sanity check: this seed should produce a non-zero secret key"
    );
    identity.zeroize();
    assert!(
        identity.secret().coeffs().iter().all(|&c| c == 0),
        "zeroize() must clear every coefficient of the secret key"
    );
}

#[test]
fn plp_projections_are_identity_bound() {
    let tau = b"context-block-height-1000";
    let rho = [0x11u8; 32];
    let a = MasterIdentity::from_seed(&[0x01u8; 32]).project_at_context(tau, &rho);
    let b = MasterIdentity::from_seed(&[0x02u8; 32]).project_at_context(tau, &rho);
    assert_ne!(a.public_b.coeffs(), b.public_b.coeffs(), "distinct identities must not share a projection");
}

#[test]
fn a_projection_decodes_to_one_that_verifies_the_same_proof() {
    let seed = test_seed();
    let identity = MasterIdentity::from_seed(&seed);
    let proj = identity.project_at_context(b"wire-context", &test_rho());
    let proof: ZkIdentityProof = Prover::prove_identity(&identity, &proj, &seed).expect("prove");
    let decoded = EphemeralProjection::from_bytes(&proj.to_bytes()).expect("decode");
    assert!(Verifier::verify(&decoded, &proof));
}

#[test]
fn the_challenge_has_sixty_unit_coefficients() {
    let c = hash_to_challenge(&Poly::zero(), &[0x01u8; 32], &[0x02u8; 32]);
    assert!(c.coeffs().iter().all(|&x| x == 0 || x == 1 || x == Q - 1));
    assert_eq!(c.coeffs().iter().filter(|&&x| x != 0).count(), 60);
}

#[test]
fn the_master_secret_is_small() {
    let identity = MasterIdentity::from_seed(&[0x31u8; 32]);
    assert!(identity.secret().infinity_norm() <= 2);
}

#[test]
fn tau_is_padded_and_truncated_to_32_bytes() {
    let short = pad_tau(b"abc");
    assert_eq!(&short[0..3], b"abc");
    assert!(short[3..].iter().all(|&b| b == 0));
    let long = pad_tau(&[7u8; 40]);
    assert_eq!(long, [7u8; 32]);
}

#[test]
fn plp_projection_is_fresh_per_rho_and_reproducible_given_rho() {
    let identity = MasterIdentity::from_seed(&[0x42u8; 32]);
    let tau = b"context-block-height-1000";
    let rho_a = [0x11u8; 32];
    let rho_b = [0x22u8; 32];

    let p_a1 = identity.project_at_context(tau, &rho_a);
    let p_a2 = identity.project_at_context(tau, &rho_a);
    let p_b = identity.project_at_context(tau, &rho_b);

    assert_eq!(
        p_a1.public_b.coeffs(),
        p_a2.public_b.coeffs(),
        "same rho must reproduce the same projection"
    );
    assert_ne!(
        p_a1.public_b.coeffs(),
        p_b.public_b.coeffs(),
        "different rho must change the projection"
    );
    // The context matrix is salted with rho as well, so it is reproduced by
    // the same rho only.
    assert_eq!(p_a1.matrix_a.coeffs(), p_a2.matrix_a.coeffs());
}

#[test]
fn the_infinity_norm_is_the_largest_centred_magnitude() {
    assert_eq!(Poly::zero().infinity_norm(), 0);
    let mut c = [0u32; N];
    c[0] = Q - 1;
    assert_eq!(Poly::from_coeffs(c).infinity_norm(), 1);
    c[5] = Q / 2;
    c[9] = Q / 2 + 1;
    assert_eq!(Poly::from_coeffs(c).infinity_norm(), (Q / 2) as i64);
}
