//! Constant-time harness entry points for the enclave prover.
//!
//! These run [`enclave_plp_prove_fixed_time`] on the fixed secret and context
//! patterns used under Valgrind Memcheck (where secret memory is marked
//! undefined, so any secret-dependent branch or index is reported). Run
//! natively, they check that the fixed-iteration path completes and yields a
//! proof.

use vstd::prelude::*;

use crate::sampling::{
    enclave_first, enclave_plp_prove_fixed_time, PlpProof, Polynomial, RejectionError, VectorK, MODULE_K, RING_N,
};

verus! {

/// Result of a constant-time verification run.
#[derive(Debug, Clone, PartialEq, Eq, Structural)]
pub enum CtVerifyResult {
    /// All iterations completed and a proof was produced.
    Passed,
    /// Proof generation failed (all iterations rejected).
    ProofFailed(RejectionError),
    /// Not running under Valgrind; results are informational only.
    NotUnderValgrind,
}

/// The secret pattern with coefficient `n` equal to `(n mod period) - offset`.
pub open spec fn pattern_secret(period: int, offset: int) -> Seq<Seq<int>> {
    Seq::new(4, |k: int| Seq::new(256, |n: int| n % period - offset))
}

/// A secret vector whose every entry has coefficients `(n mod period) - offset`.
fn pattern_vector(period: usize, offset: i32) -> (v: VectorK)
    requires
        1 <= period <= 5,
        0 <= offset <= 2,
    ensures
        crate::sampling::vector_view(v) == pattern_secret(period as int, offset as int),
{
    let mut v = VectorK { vec: [Polynomial { coeffs: [0i32; RING_N] }; MODULE_K] };
    let mut k: usize = 0;
    while k < MODULE_K
        invariant
            k <= MODULE_K,
            1 <= period <= 5,
            0 <= offset <= 2,
            forall|kk: int, n: int| 0 <= kk < k && 0 <= n < 256 ==> #[trigger] v.vec@[kk].coeffs@[n] as int == n % (period as int) - offset,
        decreases MODULE_K - k,
    {
        let mut p = Polynomial { coeffs: [0i32; RING_N] };
        let mut n: usize = 0;
        while n < RING_N
            invariant
                n <= RING_N,
                1 <= period <= 5,
                0 <= offset <= 2,
                forall|t: int| 0 <= t < n ==> #[trigger] p.coeffs@[t] as int == t % (period as int) - offset,
            decreases RING_N - n,
        {
            p.coeffs[n] = (n % period) as i32 - offset;
            n += 1;
        }
        v.vec[k] = p;
        k += 1;
    }
    proof {
        let target = pattern_secret(period as int, offset as int);
        assert forall|kk: int| 0 <= kk < 4 implies #[trigger] crate::sampling::vector_view(v)[kk] =~= target[kk] by {}
        assert(crate::sampling::vector_view(v) =~= target);
    }
    v
}

/// Run the fixed-time prover on the Valgrind harness pattern: coefficients
/// `(n mod 5) - 2`, context bytes `0x5A`.
pub fn run_ct_verification() -> (r: CtVerifyResult)
    ensures
        r == (if enclave_first(Seq::new(32, |i: int| 0x5Au8), pattern_secret(5, 2), 16) is Some {
            CtVerifyResult::Passed
        } else {
            CtVerifyResult::ProofFailed(RejectionError::AllIterationsRejected)
        }),
{
    let secret_s = pattern_vector(5, 2);
    let tau = [0x5Au8; 32];
    assert(tau@ =~= Seq::new(32, |i: int| 0x5Au8));
    let mut proof_out = PlpProof::zero();
    match enclave_plp_prove_fixed_time(&mut proof_out, &secret_s, &tau) {
        Ok(()) => CtVerifyResult::Passed,
        Err(e) => CtVerifyResult::ProofFailed(e),
    }
}

/// Run the fixed-time prover on the C harness pattern: coefficients
/// `(n mod 3) - 1`, context bytes `0x77`. `true` if a proof was produced.
pub fn run_c_harness_equivalent() -> (r: bool)
    ensures
        r == (enclave_first(Seq::new(32, |i: int| 0x77u8), pattern_secret(3, 1), 16) is Some),
{
    let secret_s = pattern_vector(3, 1);
    let tau = [0x77u8; 32];
    assert(tau@ =~= Seq::new(32, |i: int| 0x77u8));
    let mut proof_out = PlpProof::zero();
    enclave_plp_prove_fixed_time(&mut proof_out, &secret_s, &tau).is_ok()
}

} // verus!
