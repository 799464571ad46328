use aethel_core::ct_verify::{run_c_harness_equivalent, run_ct_verification, CtVerifyResult};
use aethel_core::sampling::{enclave_plp_prove_fixed_time, PlpProof, Polynomial, VectorK, MODULE_K, RING_N};

#[test]
fn test_ct_verification_passes() {
    let result = run_ct_verification();
    assert_eq!(result, CtVerifyResult::Passed, "Constant-time proof generation should succeed");
}

#[test]
fn test_c_harness_equivalent_passes() {
    assert!(run_c_harness_equivalent(), "C-harness equivalent proof generation should succeed");
}

#[test]
fn test_different_tau_produces_proof() {
    let mut secret_s = VectorK { vec: [Polynomial { coeffs: [0i32; RING_N] }; MODULE_K] };
    for k in 0..MODULE_K {
        for n in 0..RING_N {
            secret_s.vec[k].coeffs[n] = (n % 5) as i32 - 2;
        }
    }

    let tau_a = [0xAAu8; 32];
    let tau_b = [0xBBu8; 32];

    let mut proof_a = PlpProof::zero();
    let mut proof_b = PlpProof::zero();

    let result_a = enclave_plp_prove_fixed_time(&mut proof_a, &secret_s, &tau_a);
    let result_b = enclave_plp_prove_fixed_time(&mut proof_b, &secret_s, &tau_b);

    assert!(result_a.is_ok(), "Proof A generation should succeed");
    assert!(result_b.is_ok(), "Proof B generation should succeed");
}

#[test]
fn the_enclave_proof_depends_on_the_context() {
    let mut secret_s = VectorK { vec: [Polynomial { coeffs: [0i32; RING_N] }; MODULE_K] };
    for k in 0..MODULE_K {
        for n in 0..RING_N {
            secret_s.vec[k].coeffs[n] = ((k + n) % 5) as i32 - 2;
        }
    }
    let mut proof_a = PlpProof::zero();
    let mut proof_b = PlpProof::zero();
    enclave_plp_prove_fixed_time(&mut proof_a, &secret_s, &[0x01u8; 32]).expect("proof a");
    enclave_plp_prove_fixed_time(&mut proof_b, &secret_s, &[0x02u8; 32]).expect("proof b");
    let differs = (0..MODULE_K).any(|k| proof_a.z.vec[k].coeffs != proof_b.z.vec[k].coeffs);
    assert!(differs, "two contexts produced the same response");
    assert!((proof_a.iteration_counter as usize) < 16, "the accepted attempt index is out of range");
}
