//! Fixed-iteration rejection sampling for the enclave prover.
//!
//! [`enclave_plp_prove_fixed_time`] runs every one of its
//! [`FIXED_ITERATION_CEILING`] attempts whatever their outcome, and selects
//! the first accepted response with a masked (branch-free) copy, so the work
//! done does not depend on which attempt was accepted.

use vstd::prelude::*;

pub use crate::saap::{Polynomial, VectorK, MODULE_K, RING_N};

use crate::credential::{
    centred_norm, framed, infinity_norm, push_vec_bytes, respond, sample_short_mask, short_mask, slices_view,
    vec_bytes, xof_for, polys_view,
};
use crate::saap::{cadd, cmul, hash_to_challenge_from_xof, poly_ints, REJECTION_BOUND};
use crate::xof::challenge_coeffs;

verus! {

/// Attempts made by [`enclave_plp_prove_fixed_time`], accepted or not.
pub const FIXED_ITERATION_CEILING: usize = 16;

/// `"AETHEL_ENCLAVE_MASK_V1"`: enclave masks.
pub const DOMAIN_ENCLAVE_MASK: [u8; 22] = [
    65, 69, 84, 72, 69, 76, 95, 69, 78, 67, 76, 65, 86, 69, 95, 77, 65, 83, 75, 95, 86, 49,
];

/// `"AETHEL_ENCLAVE_CHALLENGE_V1"`: enclave challenges.
pub const DOMAIN_ENCLAVE_CHALLENGE: [u8; 27] = [
    65, 69, 84, 72, 69, 76, 95, 69, 78, 67, 76, 65, 86, 69, 95, 67, 72, 65, 76, 76, 69, 78, 71, 69, 95, 86, 49,
];

/// Why the enclave prover produced no proof.
#[derive(Debug, Clone, Copy, PartialEq, Eq, Structural)]
pub enum RejectionError {
    /// Every attempt failed the norm bound.
    AllIterationsRejected,
}

/// An enclave proof: the response vector and the index of the attempt that
/// produced it.
#[derive(Clone, Copy)]
pub struct PlpProof {
    /// Response `z = y + c·s`.
    pub z: VectorK,
    /// The accepted attempt.
    pub iteration_counter: u32,
}

impl PlpProof {
    /// The all-zero proof.
    pub fn zero() -> (r: Self)
        ensures
            r.iteration_counter == 0,
            forall|k: int, i: int| 0 <= k < 4 && 0 <= i < 256 ==> #[trigger] r.z.vec@[k].coeffs@[i] == 0,
    {
        PlpProof { z: VectorK::zero(), iteration_counter: 0 }
    }
}

/// The entries of a vector's polynomials.
pub open spec fn vector_view(v: VectorK) -> Seq<Seq<int>> {
    polys_view(v.vec@)
}

/// Mask `k` of attempt `it`.
pub open spec fn enclave_mask(tau: Seq<u8>, s: Seq<Seq<int>>, it: int, k: int) -> Seq<int> {
    short_mask(framed(DOMAIN_ENCLAVE_MASK@, seq![tau, vec_bytes(s), seq![it as u8], seq![k as u8]]))
}

/// Challenge of attempt `it`: 39 coefficients `±1`.
pub open spec fn enclave_challenge(tau: Seq<u8>, it: int) -> Seq<int> {
    challenge_coeffs(framed(DOMAIN_ENCLAVE_CHALLENGE@, seq![tau, seq![it as u8]]), 39)
}

/// Response of attempt `it`: `z_k = y_k + c·s_k`.
pub open spec fn enclave_response(tau: Seq<u8>, s: Seq<Seq<int>>, it: int) -> Seq<Seq<int>> {
    Seq::new(4, |k: int| cadd(enclave_mask(tau, s, it, k), cmul(enclave_challenge(tau, it), s[k])))
}

/// Attempt `it` is accepted: every response entry is below the bound.
pub open spec fn enclave_accepts(tau: Seq<u8>, s: Seq<Seq<int>>, it: int) -> bool {
    forall|k: int| 0 <= k < 4 ==> #[trigger] centred_norm(enclave_response(tau, s, it)[k]) < REJECTION_BOUND
}

/// The first accepted attempt below `n`, if any.
pub open spec fn enclave_first(tau: Seq<u8>, s: Seq<Seq<int>>, n: nat) -> Option<int>
    decreases n,
{
    if n == 0 {
        None
    } else {
        match enclave_first(tau, s, (n - 1) as nat) {
            Some(i) => Some(i),
            None => if enclave_accepts(tau, s, n - 1) {
                Some(n - 1)
            } else {
                None
            },
        }
    }
}

/// `(a & mask) | (b & !mask)` is `a` for an all-ones mask and `b` for zero.
proof fn lemma_select(a: i32, b: i32, mask: i32)
    requires
        mask == 0 || mask == -1,
    ensures
        ((a & mask) | (b & !mask)) == (if mask == -1 { a } else { b }),
{
    assert(mask == 0 || mask == -1 ==> ((a & mask) | (b & !mask)) == (if mask == -1 { a } else { b })) by (bit_vector);
}

/// Copy `src` over `dst` when `take`, without branching on `take`.
fn ct_select(dst: &mut VectorK, src: &VectorK, take: bool)
    ensures
        vector_view(*final(dst)) == (if take { vector_view(*src) } else { vector_view(*old(dst)) }),
{
    let mask: i32 = 0i32 - (take as i32);
    let ghost d0 = *dst;
    let mut k: usize = 0;
    while k < MODULE_K
        invariant
            k <= MODULE_K,
            mask == (if take { -1i32 } else { 0i32 }),
            forall|j: int| 0 <= j < k ==> #[trigger] poly_ints(dst.vec@[j]) == (if take { poly_ints(src.vec@[j]) } else { poly_ints(d0.vec@[j]) }),
            forall|j: int| k <= j < 4 ==> #[trigger] dst.vec@[j] == d0.vec@[j],
        decreases MODULE_K - k,
    {
        let mut p = dst.vec[k];
        let mut i: usize = 0;
        while i < RING_N
            invariant
                i <= RING_N,
                k < MODULE_K,
                mask == (if take { -1i32 } else { 0i32 }),
                forall|t: int| 0 <= t < i ==> #[trigger] p.coeffs@[t] == (if take { src.vec@[k as int].coeffs@[t] } else { d0.vec@[k as int].coeffs@[t] }),
                forall|t: int| i <= t < 256 ==> #[trigger] p.coeffs@[t] == d0.vec@[k as int].coeffs@[t],
            decreases RING_N - i,
        {
            proof {
                lemma_select(src.vec@[k as int].coeffs@[i as int], p.coeffs@[i as int], mask);
            }
            p.coeffs[i] = (src.vec[k].coeffs[i] & mask) | (p.coeffs[i] & !mask);
            i += 1;
        }
        proof {
            if take {
                assert(poly_ints(p) =~= poly_ints(src.vec@[k as int]));
            } else {
                assert(poly_ints(p) =~= poly_ints(d0.vec@[k as int]));
            }
        }
        dst.vec[k] = p;
        k += 1;
    }
    proof {
        if take {
            assert(vector_view(*dst) =~= vector_view(*src));
        } else {
            assert(vector_view(*dst) =~= vector_view(d0));
        }
    }
}

/// Produce an enclave proof for secret vector `s` at context `tau`.
///
/// Runs all [`FIXED_ITERATION_CEILING`] attempts. Attempt `it` draws masks
/// `y_k` from SHAKE-256 over `tau`, `s` and `(it, k)`, a weight-39 challenge
/// `c` over `tau` and `it`, and answers `z_k = y_k + c·s_k`; it is accepted if
/// every `‖z_k‖∞` is below the rejection bound. On success `proof_out` holds
/// the first accepted response and its attempt index; if no attempt is
/// accepted, `proof_out` is left unchanged and the call fails.
pub fn enclave_plp_prove_fixed_time(proof_out: &mut PlpProof, s: &VectorK, tau: &[u8; 32]) -> (r: Result<
    (),
    RejectionError,
>)
    ensures
        match enclave_first(tau@, vector_view(*s), 16) {
            Some(it) => {
                &&& r is Ok
                &&& final(proof_out).iteration_counter == it
                &&& vector_view(final(proof_out).z) == enclave_response(tau@, vector_view(*s), it)
            },
            None => r == Err::<(), RejectionError>(RejectionError::AllIterationsRejected) && *final(proof_out) == *old(
                proof_out,
            ),
        },
        match enclave_first(tau@, vector_view(*s), 16) {
            Some(it) => 0 <= it < 16,
            None => true,
        },
{
    let ghost sv = vector_view(*s);
    let mut s_buf: Vec<u8> = Vec::new();
    push_vec_bytes(&mut s_buf, &s.vec);
    let s_bytes: &[u8] = s_buf.as_slice();
    let mut selected = proof_out.z;
    let mut counter: u32 = proof_out.iteration_counter;
    let mut found = false;
    let mut it: usize = 0;
    while it < FIXED_ITERATION_CEILING
        invariant
            it <= 16,
            sv == vector_view(*s),
            s_bytes@ == vec_bytes(sv),
            found == (enclave_first(tau@, sv, it as nat) is Some),
            found ==> (enclave_first(tau@, sv, it as nat) == Some(counter as int) && vector_view(selected) == enclave_response(tau@, sv, counter as int)),
        decreases 16 - it,
    {
        let itb = [it as u8];
        let cparts: [&[u8]; 2] = [tau, &itb];
        proof {
            assert(itb@ =~= seq![it as u8]);
            assert(slices_view(cparts@) =~= seq![tau@, seq![it as u8]]);
        }
        let mut cx = xof_for(&DOMAIN_ENCLAVE_CHALLENGE, &cparts);
        let c = hash_to_challenge_from_xof(&mut cx);
        let mut z = VectorK::zero();
        let mut accept = true;
        let mut k: usize = 0;
        while k < MODULE_K
            invariant
                k <= MODULE_K,
                it < 16,
                sv == vector_view(*s),
                s_bytes@ == vec_bytes(sv),
                poly_ints(c) == enclave_challenge(tau@, it as int),
                itb@ == seq![it as u8],
                forall|j: int| 0 <= j < k ==> #[trigger] poly_ints(z.vec@[j]) == enclave_response(tau@, sv, it as int)[j],
                accept == (forall|j: int| 0 <= j < k ==> #[trigger] centred_norm(enclave_response(tau@, sv, it as int)[j]) < REJECTION_BOUND),
            decreases MODULE_K - k,
        {
            let kb = [k as u8];
            let parts: [&[u8]; 4] = [tau, s_bytes, &itb, &kb];
            proof {
                assert(kb@ =~= seq![k as u8]);
                assert(slices_view(parts@) =~= seq![tau@, vec_bytes(sv), seq![it as u8], seq![k as u8]]);
            }
            let mut mx = xof_for(&DOMAIN_ENCLAVE_MASK, &parts);
            let y = sample_short_mask(&mut mx);
            let zk = respond(&y, &c, &s.vec[k]);
            let n = infinity_norm(&zk);
            assert(poly_ints(zk) == enclave_response(tau@, sv, it as int)[k as int]);
            accept = accept && (n < REJECTION_BOUND);
            z.vec[k] = zk;
            k += 1;
        }
        assert(vector_view(z) =~= enclave_response(tau@, sv, it as int));
        let take = accept && !found;
        ct_select(&mut selected, &z, take);
        let mask: u32 = (take as u32) * 0xffff_ffffu32;
        proof {
            assert(mask == 0 || mask == 0xffff_ffffu32);
            let itu = it as u32;
            assert((mask == 0xffff_ffffu32 ==> ((itu & mask) | (counter & !mask)) == itu) && (mask == 0 ==> ((itu
                & mask) | (counter & !mask)) == counter)) by (bit_vector);
        }
        counter = ((it as u32) & mask) | (counter & !mask);
        found = found || accept;
        it += 1;
    }
    proof {
        lemma_enclave_first_range(tau@, sv, 16);
    }
    if found {
        proof_out.z = selected;
        proof_out.iteration_counter = counter;
        Ok(())
    } else {
        Err(RejectionError::AllIterationsRejected)
    }
}

/// The first accepted attempt below `n` lies below `n`.
pub proof fn lemma_enclave_first_range(tau: Seq<u8>, s: Seq<Seq<int>>, n: nat)
    ensures
        enclave_first(tau, s, n) matches Some(i) ==> 0 <= i < n,
    decreases n,
{
    if n > 0 {
        lemma_enclave_first_range(tau, s, (n - 1) as nat);
    }
}

} // verus!
