//! SAAP: a BDLOP credential and two linked relations.
//!
//! 1. **Identity linkage.** Knowledge of `(s, e_τ)` with `b_τ = A_τ·s + e_τ`.
//! 2. **Credential membership.** Knowledge of short `r*` and hidden messages
//!    with `t_blind − (0‖m_pub) = B_1·r* + (0‖m_hidden)`.
//!
//! Range and set-membership predicates over hidden attributes are not
//! implemented, and nothing here claims to evaluate one.
//!
//! The relations are linked by a shared witness: credential slot 0 holds the
//! holder's master secret `s`, is always hidden, and is masked with the same
//! `y_s` as the identity relation, so `z_m[0] == z_s` by construction and the
//! verifier checks it. The projection error `e_τ` is part of the witness
//! (masked by `y_e`, answered by `z_e`), which makes the identity relation
//! exact: `A_τ·z_s + z_e − c·b_τ = W_2`.
//!
//! Attribute masks are uniform over `R_q` (attributes are not short); only the
//! randomness, `s` and `e_τ` are masked short and rejection-sampled.

use vstd::prelude::*;

use crate::identity_error::IdentityError;
use crate::plp::{self, error_poly, EphemeralProjection, MasterIdentity};
use crate::ring::{
    centered, congruent_seqs, lemma_cong_refl, lemma_cong_sym, lemma_cong_trans, lemma_pmul_seq_add,
    lemma_pmul_seq_cong, lemma_pmul_seq_left_comm, lemma_seq_add_cong, lemma_seq_sub_cong, pmul_seq, q_int, seq_add,
    seq_sub,
};
use crate::saap::{
    cadd, centred_seq, cmul, csub, hash_to_challenge_from_xof, lemma_cadd_facts, lemma_centred_cong_eq,
    lemma_cmul_facts, lemma_csub_facts, mod_q, poly_add, poly_ints, poly_mul_negacyclic, poly_sub, zero_poly,
    Polynomial, PARAM_GAMMA1, PARAM_Q, REJECTION_BOUND, RING_N,
};
use crate::xof::{
    challenge_coeffs, le_u32, le_u64, push_bytes, push_u32_le, push_u64_le, rejection_sample, sample_rejection,
    xof_byte, XofStream,
};

verus! {

/// Dimension of the commitment randomness `r`.
pub const CRED_L: usize = 4;

/// Number of attribute slots available to an issuer.
pub const CRED_ATTRIBUTES: usize = 8;

/// Message slots: slot 0 is the identity binding, slots 1..=8 the attributes.
pub const CRED_SLOTS: usize = 9;

/// Rows of `B_1`, and the dimension of `t_cred`.
pub const CRED_T: usize = 13;

/// Slot reserved for the holder's master secret. Never disclosable.
pub const IDENTITY_SLOT: usize = 0;

/// Rejection-sampling attempts before giving up. Exhausting them is an error:
/// a response that failed the norm check is never emitted.
pub const MAX_REJECTION_ITERATIONS: usize = 32;

/// `"AETHEL_SAAP_B1_V1"`: issuer matrix expansion.
pub const DOMAIN_B1: [u8; 17] = [65, 69, 84, 72, 69, 76, 95, 83, 65, 65, 80, 95, 66, 49, 95, 86, 49];

/// `"AETHEL_SAAP_CHALLENGE_V2"`: presentation challenge.
pub const DOMAIN_SAAP_CHALLENGE: [u8; 24] = [
    65, 69, 84, 72, 69, 76, 95, 83, 65, 65, 80, 95, 67, 72, 65, 76, 76, 69, 78, 71, 69, 95, 86, 50,
];

/// `"AETHEL_SAAP_ISSUE_R_V1"`: issuance randomness.
pub const DOMAIN_ISSUE_RANDOMNESS: [u8; 22] = [
    65, 69, 84, 72, 69, 76, 95, 83, 65, 65, 80, 95, 73, 83, 83, 85, 69, 95, 82, 95, 86, 49,
];

/// `"AETHEL_SAAP_BLIND_V1"`: per-presentation blinding.
pub const DOMAIN_BLIND: [u8; 20] = [65, 69, 84, 72, 69, 76, 95, 83, 65, 65, 80, 95, 66, 76, 73, 78, 68, 95, 86, 49];

/// `"AETHEL_SAAP_PROOF_MASK_V1"`: presentation masks.
pub const DOMAIN_PROOF_MASK: [u8; 25] = [
    65, 69, 84, 72, 69, 76, 95, 83, 65, 65, 80, 95, 80, 82, 79, 79, 70, 95, 77, 65, 83, 75, 95, 86, 49,
];

/// Width of the short-mask range `[-γ₁, γ₁]`.
pub const SHORT_MASK_RANGE: u32 = 262_145;

/// Bytes squeezed up front for a short mask: one 3-byte group in about 32 is
/// accepted, so 256 values need about 24.6 KiB.
const SHORT_MASK_SQUEEZE: usize = 32_768;

/// Bytes squeezed up front for a uniform polynomial: one 31-bit group in about
/// 256 is below `q`, so 256 values need about 256 KiB.
const UNIFORM_SQUEEZE: usize = 327_680;

// ── Specifications: framing and sampling ────────────────────────────────────

/// Each part as `le_u32(len) ++ part`, concatenated.
pub open spec fn frame_parts(parts: Seq<Seq<u8>>) -> Seq<u8>
    decreases parts.len(),
{
    if parts.len() == 0 {
        seq![]
    } else {
        frame_parts(parts.drop_last()) + le_u32(parts.last().len() as u32) + parts.last()
    }
}

/// SHAKE-256 input of a domain-separated, length-framed derivation.
pub open spec fn framed(domain: Seq<u8>, parts: Seq<Seq<u8>>) -> Seq<u8> {
    domain + frame_parts(parts)
}

/// The byte contents of a list of slices.
pub open spec fn slices_view(parts: Seq<&[u8]>) -> Seq<Seq<u8>> {
    Seq::new(parts.len(), |i: int| parts[i]@)
}

/// Centred binomial η=2 value of one byte: popcount of its low two bits minus
/// popcount of the next two.
pub open spec fn cbd_val(b: u8) -> int {
    (b as int % 2 + (b as int / 2) % 2) - ((b as int / 4) % 2 + (b as int / 8) % 2)
}

/// CBD η=2 polynomial from the first 256 stream bytes, coefficients in `[-2, 2]`.
pub open spec fn small_poly(input: Seq<u8>) -> Seq<int> {
    Seq::new(256, |i: int| cbd_val(xof_byte(input, i)))
}

/// Short mask: the first 256 stream values below `2γ₁ + 1` (3-byte groups),
/// shifted down by `γ₁`.
pub open spec fn short_mask(input: Seq<u8>) -> Seq<int> {
    let vals = rejection_sample(input, 3, SHORT_MASK_RANGE as int, 256);
    Seq::new(256, |i: int| if i < vals.len() { vals[i] - PARAM_GAMMA1 } else { 0 })
}

/// Uniform polynomial: the first 256 stream values below `q` (4-byte groups),
/// centred.
pub open spec fn uniform_poly(input: Seq<u8>) -> Seq<int> {
    let vals = rejection_sample(input, 4, q_int(), 256);
    Seq::new(256, |i: int| if i < vals.len() { centered(vals[i]) } else { 0 })
}

/// The centred form of a `[0, q)` polynomial.
pub open spec fn centred_of(s: Seq<u32>) -> Seq<int> {
    Seq::new(256, |i: int| centered(s[i] as int))
}

/// An attribute value as a constant polynomial.
pub open spec fn attribute_poly(v: u64) -> Seq<int> {
    Seq::new(256, |i: int| if i == 0 { centered(v as int) } else { 0 })
}

/// The coefficients of each polynomial.
pub open spec fn polys_view(ps: Seq<Polynomial>) -> Seq<Seq<int>> {
    Seq::new(ps.len(), |i: int| poly_ints(ps[i]))
}

// ── Framing and sampling ────────────────────────────────────────────────────

/// A SHAKE-256 stream over `domain`, then each part as `le_u32(len) ++ part`.
pub(crate) fn xof_for(domain: &[u8], parts: &[&[u8]]) -> (s: XofStream)
    ensures
        s.wf(),
        s.source() == framed(domain@, slices_view(parts@)),
{
    let ghost pv = slices_view(parts@);
    let mut input: Vec<u8> = Vec::new();
    push_bytes(&mut input, domain);
    let mut i: usize = 0;
    proof {
        assert(pv.subrange(0, 0) =~= Seq::<Seq<u8>>::empty());
        assert(input@ =~= domain@ + frame_parts(pv.subrange(0, 0)));
    }
    while i < parts.len()
        invariant
            i <= parts@.len(),
            pv == slices_view(parts@),
            input@ == domain@ + frame_parts(pv.subrange(0, i as int)),
        decreases parts@.len() - i,
    {
        let part: &[u8] = parts[i];
        push_u32_le(&mut input, part.len() as u32);
        push_bytes(&mut input, part);
        proof {
            let s = pv.subrange(0, i + 1);
            assert(s.drop_last() =~= pv.subrange(0, i as int));
            assert(s.last() == part@);
            assert(input@ =~= domain@ + frame_parts(s));
        }
        i += 1;
    }
    assert(pv.subrange(0, parts@.len() as int) =~= pv);
    XofStream::new(input, 1024)
}

/// Centred binomial sample with η=2: coefficients in [-2, 2].
fn sample_cbd(xof: &mut XofStream) -> (p: Polynomial)
    requires
        old(xof).wf(),
    ensures
        final(xof).wf(),
        final(xof).source() == old(xof).source(),
        poly_ints(p) == small_poly(old(xof).source()),
{
    let ghost input = xof.source();
    let mut p = Polynomial::zero();
    let mut i: usize = 0;
    while i < RING_N
        invariant
            i <= RING_N,
            xof.wf(),
            xof.source() == input,
            forall|j: int| 0 <= j < i ==> #[trigger] p.coeffs@[j] as int == small_poly(input)[j],
        decreases RING_N - i,
    {
        let b = xof.byte(i);
        let a = (b % 2 + (b / 2) % 2) as i32;
        let c = ((b / 4) % 2 + (b / 8) % 2) as i32;
        p.coeffs[i] = a - c;
        i += 1;
    }
    assert(poly_ints(p) =~= small_poly(input));
    p
}

/// Uniform in `[-γ₁, γ₁]`. Used for witnesses that must stay short.
pub(crate) fn sample_short_mask(xof: &mut XofStream) -> (p: Polynomial)
    requires
        old(xof).wf(),
    ensures
        final(xof).wf(),
        final(xof).source() == old(xof).source(),
        poly_ints(p) == short_mask(old(xof).source()),
{
    let ghost input = xof.source();
    xof.reserve(SHORT_MASK_SQUEEZE);
    let vals = sample_rejection(xof, 3, SHORT_MASK_RANGE, RING_N);
    let ghost sv = rejection_sample(input, 3, SHORT_MASK_RANGE as int, 256);
    proof {
        crate::xof::lemma_accepted_bounds(input, 3, SHORT_MASK_RANGE as int, 256, crate::xof::group_cap(3));
    }
    let mut p = Polynomial::zero();
    let mut i: usize = 0;
    while i < vals.len()
        invariant
            i <= vals@.len(),
            vals@.len() == sv.len(),
            sv.len() <= 256,
            sv == rejection_sample(input, 3, SHORT_MASK_RANGE as int, 256),
            forall|j: int| 0 <= j < vals@.len() ==> #[trigger] vals@[j] as int == sv[j],
            forall|j: int| 0 <= j < sv.len() ==> 0 <= #[trigger] sv[j] < SHORT_MASK_RANGE,
            forall|j: int| 0 <= j < i ==> #[trigger] p.coeffs@[j] as int == short_mask(input)[j],
            forall|j: int| i <= j < 256 ==> #[trigger] p.coeffs@[j] == 0,
        decreases vals@.len() - i,
    {
        p.coeffs[i] = vals[i] as i32 - PARAM_GAMMA1;
        i += 1;
    }
    assert(poly_ints(p) =~= short_mask(input));
    p
}

/// Uniform over all of `R_q`. Used to mask attribute messages, which are not
/// short and so cannot be hidden by a short mask.
fn sample_uniform(xof: &mut XofStream) -> (p: Polynomial)
    requires
        old(xof).wf(),
    ensures
        final(xof).wf(),
        final(xof).source() == old(xof).source(),
        poly_ints(p) == uniform_poly(old(xof).source()),
{
    let ghost input = xof.source();
    xof.reserve(UNIFORM_SQUEEZE);
    let vals = sample_rejection(xof, 4, PARAM_Q as u32, RING_N);
    let ghost sv = rejection_sample(input, 4, q_int(), 256);
    proof {
        crate::xof::lemma_accepted_bounds(input, 4, q_int(), 256, crate::xof::group_cap(4));
    }
    let mut p = Polynomial::zero();
    let mut i: usize = 0;
    while i < vals.len()
        invariant
            i <= vals@.len(),
            vals@.len() == sv.len(),
            sv.len() <= 256,
            sv == rejection_sample(input, 4, q_int(), 256),
            forall|j: int| 0 <= j < vals@.len() ==> #[trigger] vals@[j] as int == sv[j],
            forall|j: int| 0 <= j < i ==> #[trigger] p.coeffs@[j] as int == uniform_poly(input)[j],
            forall|j: int| i <= j < 256 ==> #[trigger] p.coeffs@[j] == 0,
        decreases vals@.len() - i,
    {
        p.coeffs[i] = mod_q(vals[i] as i64);
        i += 1;
    }
    assert(poly_ints(p) =~= uniform_poly(input));
    p
}

/// `plp::Poly` (coefficients in `[0, q)`) in the centred representation.
pub fn from_plp(p: &plp::Poly) -> (r: Polynomial)
    ensures
        poly_ints(r) == centred_of(p@),
{
    let coeffs = p.coeffs();
    let mut out = Polynomial::zero();
    let mut i: usize = 0;
    while i < RING_N
        invariant
            i <= RING_N,
            coeffs@ == p@,
            coeffs@.len() == 256,
            forall|j: int| 0 <= j < i ==> #[trigger] out.coeffs@[j] as int == centred_of(p@)[j],
        decreases RING_N - i,
    {
        out.coeffs[i] = mod_q(coeffs[i] as i64);
        i += 1;
    }
    assert(poly_ints(out) =~= centred_of(p@));
    out
}

/// Encode an attribute value as a constant polynomial.
///
/// Values must be below `q`: a larger value is refused rather than reduced.
fn encode_attribute(value: u64) -> (r: Result<Polynomial, IdentityError>)
    ensures
        r is Ok <==> value < q_int(),
        r matches Err(e) ==> e == IdentityError::InvalidInputLength,
        r matches Ok(p) ==> poly_ints(p) == attribute_poly(value),
{
    if value >= PARAM_Q as u64 {
        return Err(IdentityError::InvalidInputLength);
    }
    let mut p = Polynomial::zero();
    p.coeffs[0] = mod_q(value as i64);
    assert(poly_ints(p) =~= attribute_poly(value));
    Ok(p)
}

// ── Issuer parameters ────────────────────────────────────────────────────────

/// Entry `(row, col)` of the issuer matrix `B_1` expanded from `seed`.
pub open spec fn issuer_entry(seed: Seq<u8>, row: int, col: int) -> Seq<int> {
    uniform_poly(framed(DOMAIN_B1@, seq![seed, seq![row as u8, col as u8]]))
}

/// The issuer matrix `B_1 ∈ R_q^{T×L}` expanded from `seed`.
pub open spec fn issuer_matrix(seed: Seq<u8>) -> Seq<Seq<Seq<int>>> {
    Seq::new(13, |r: int| Seq::new(4, |c: int| issuer_entry(seed, r, c)))
}

/// `sum_{c < n} row[c] * v[c]` in `R_q`, centred.
pub open spec fn dot(row: Seq<Seq<int>>, v: Seq<Seq<int>>, n: nat) -> Seq<int>
    decreases n,
{
    if n == 0 {
        zero_poly()
    } else {
        cadd(dot(row, v, (n - 1) as nat), cmul(row[n - 1], v[n - 1]))
    }
}

/// `M · v` for a `T×L` matrix and a length-`L` vector.
pub open spec fn mat_vec(m: Seq<Seq<Seq<int>>>, v: Seq<Seq<int>>) -> Seq<Seq<int>> {
    Seq::new(13, |r: int| dot(m[r], v, 4))
}

/// `t + (0^L ‖ m)`.
pub open spec fn add_slots(t: Seq<Seq<int>>, m: Seq<Seq<int>>) -> Seq<Seq<int>> {
    Seq::new(13, |r: int| if r < 4 { t[r] } else { cadd(t[r], m[r - 4]) })
}

/// Entry-wise sum of two polynomial vectors.
pub open spec fn add_vecs(a: Seq<Seq<int>>, b: Seq<Seq<int>>) -> Seq<Seq<int>> {
    Seq::new(a.len(), |i: int| cadd(a[i], b[i]))
}

/// The public expansion matrix `B_1 ∈ R_q^{T×L}`, derived from an issuer seed.
///
/// Deterministic in the seed, so a verifier reconstructs the issuer's matrix
/// from the issuer's public identity rather than being handed it.
pub struct IssuerParams {
    b1: [[Polynomial; CRED_L]; CRED_T],
}

impl IssuerParams {
    /// The matrix entries.
    pub closed spec fn matrix(&self) -> Seq<Seq<Seq<int>>> {
        Seq::new(13, |r: int| polys_view(self.b1@[r]@))
    }

    /// Expand an issuer's public parameters from its seed.
    pub fn from_seed(issuer_seed: &[u8]) -> (r: Self)
        ensures
            r.matrix() == issuer_matrix(issuer_seed@),
    {
        let mut b1 = [[Polynomial::zero(); CRED_L]; CRED_T];
        let mut row: usize = 0;
        while row < CRED_T
            invariant
                row <= CRED_T,
                forall|r: int, c: int|
                    0 <= r < row && 0 <= c < 4 ==> #[trigger] poly_ints(b1@[r]@[c]) == issuer_entry(issuer_seed@, r, c),
            decreases CRED_T - row,
        {
            let mut entries = [Polynomial::zero(); CRED_L];
            let mut col: usize = 0;
            while col < CRED_L
                invariant
                    row < CRED_T,
                    col <= CRED_L,
                    forall|c: int| 0 <= c < col ==> #[trigger] poly_ints(entries@[c]) == issuer_entry(issuer_seed@, row as int, c),
                decreases CRED_L - col,
            {
                let rc = [row as u8, col as u8];
                let parts: [&[u8]; 2] = [issuer_seed, &rc];
                proof {
                    assert(rc@ =~= seq![row as u8, col as u8]);
                    assert(slices_view(parts@) =~= seq![issuer_seed@, seq![row as u8, col as u8]]);
                }
                let mut xof = xof_for(&DOMAIN_B1, &parts);
                entries[col] = sample_uniform(&mut xof);
                col += 1;
            }
            b1[row] = entries;
            row += 1;
        }
        let r = Self { b1 };
        assert(r.matrix() =~= issuer_matrix(issuer_seed@)) by {
            assert forall|i: int| 0 <= i < 13 implies #[trigger] r.matrix()[i] =~= issuer_matrix(issuer_seed@)[i] by {
                assert forall|c: int| 0 <= c < 4 implies #[trigger] r.matrix()[i][c] == issuer_matrix(issuer_seed@)[i][c] by {
                    assert(poly_ints(b1@[i]@[c]) == issuer_entry(issuer_seed@, i, c));
                }
            }
        }
        r
    }

    /// `B_1 · v` for a length-`L` vector.
    fn mul(&self, v: &[Polynomial; CRED_L]) -> (out: [Polynomial; CRED_T])
        ensures
            polys_view(out@) == mat_vec(self.matrix(), polys_view(v@)),
    {
        let ghost vv = polys_view(v@);
        let mut out = [Polynomial::zero(); CRED_T];
        let mut row: usize = 0;
        while row < CRED_T
            invariant
                row <= CRED_T,
                vv == polys_view(v@),
                forall|r: int| 0 <= r < row ==> #[trigger] poly_ints(out@[r]) == dot(self.matrix()[r], vv, 4),
            decreases CRED_T - row,
        {
            let mut acc = Polynomial::zero();
            let mut col: usize = 0;
            while col < CRED_L
                invariant
                    row < CRED_T,
                    col <= CRED_L,
                    vv == polys_view(v@),
                    poly_ints(acc) == dot(self.matrix()[row as int], vv, col as nat),
                decreases CRED_L - col,
            {
                let prod = poly_mul_negacyclic(&self.b1[row][col], &v[col]);
                acc = poly_add(&acc, &prod);
                col += 1;
            }
            out[row] = acc;
            row += 1;
        }
        assert(polys_view(out@) =~= mat_vec(self.matrix(), vv));
        out
    }
}

// ── Credential ───────────────────────────────────────────────────────────────

/// All attribute values are below `q`.
pub open spec fn attributes_in_range(attrs: Seq<u64>) -> bool {
    forall|i: int| 0 <= i < attrs.len() ==> #[trigger] attrs[i] < q_int()
}

/// The message vector of an issued credential: the identity secret in slot 0,
/// then the attribute values.
pub open spec fn issue_messages(s: Seq<u32>, attrs: Seq<u64>) -> Seq<Seq<int>> {
    Seq::new(9, |slot: int| if slot == 0 { centred_of(s) } else { attribute_poly(attrs[slot - 1]) })
}

/// Small polynomial `i` drawn under `domain` from `rand`.
pub open spec fn small_vec(domain: Seq<u8>, rand: Seq<u8>) -> Seq<Seq<int>> {
    Seq::new(4, |i: int| small_poly(framed(domain, seq![rand, seq![i as u8]])))
}

/// Draw the four small polynomials of [`small_vec`].
fn sample_small_vec(domain: &[u8], rand: &[u8]) -> (r: [Polynomial; CRED_L])
    ensures
        polys_view(r@) == small_vec(domain@, rand@),
{
    let mut r = [Polynomial::zero(); CRED_L];
    let mut i: usize = 0;
    while i < CRED_L
        invariant
            i <= CRED_L,
            forall|j: int| 0 <= j < i ==> #[trigger] poly_ints(r@[j]) == small_vec(domain@, rand@)[j],
        decreases CRED_L - i,
    {
        let idx = [i as u8];
        let parts: [&[u8]; 2] = [rand, &idx];
        proof {
            assert(idx@ =~= seq![i as u8]);
            assert(slices_view(parts@) =~= seq![rand@, seq![i as u8]]);
        }
        let mut xof = xof_for(domain, &parts);
        r[i] = sample_cbd(&mut xof);
        i += 1;
    }
    assert(polys_view(r@) =~= small_vec(domain@, rand@));
    r
}

/// A credential issued over a holder's identity and attribute values.
///
/// Holds the commitment randomness, so it is secret material.
pub struct Credential {
    t_cred: [Polynomial; CRED_T],
    r: [Polynomial; CRED_L],
    m: [Polynomial; CRED_SLOTS],
}

impl Credential {
    /// The commitment `t_cred`.
    pub closed spec fn commitment_view(&self) -> Seq<Seq<int>> {
        polys_view(self.t_cred@)
    }

    /// The commitment randomness `r`.
    pub closed spec fn randomness_view(&self) -> Seq<Seq<int>> {
        polys_view(self.r@)
    }

    /// The message vector `m`.
    pub closed spec fn messages_view(&self) -> Seq<Seq<int>> {
        polys_view(self.m@)
    }

    /// Issue a credential binding `attributes` to the holder's identity:
    /// `t_cred = B_1·r + (0^L ‖ m)` with `m = (s, attributes)`.
    ///
    /// Refuses (`InvalidInputLength`) randomness shorter than 32 bytes and any
    /// attribute value at or above `q`.
    pub fn issue(
        params: &IssuerParams,
        identity: &MasterIdentity,
        attributes: &[u64; CRED_ATTRIBUTES],
        issuance_randomness: &[u8],
    ) -> (r: Result<Self, IdentityError>)
        ensures
            r is Err <==> (issuance_randomness@.len() < 32 || !attributes_in_range(attributes@)),
            r matches Err(e) ==> e == IdentityError::InvalidInputLength,
            r matches Ok(c) ==> {
                &&& c.messages_view() == issue_messages(identity.secret_coeffs(), attributes@)
                &&& c.randomness_view() == small_vec(DOMAIN_ISSUE_RANDOMNESS@, issuance_randomness@)
                &&& c.commitment_view() == add_slots(mat_vec(params.matrix(), c.randomness_view()), c.messages_view())
            },
    {
        if issuance_randomness.len() < 32 {
            return Err(IdentityError::InvalidInputLength);
        }
        let mut m = [Polynomial::zero(); CRED_SLOTS];
        m[IDENTITY_SLOT] = from_plp(identity.secret());
        let mut i: usize = 0;
        while i < CRED_ATTRIBUTES
            invariant
                i <= CRED_ATTRIBUTES,
                forall|j: int| 0 <= j < i ==> #[trigger] attributes@[j] < q_int(),
                poly_ints(m@[0]) == centred_of(identity.secret_coeffs()),
                forall|j: int| 1 <= j <= i ==> #[trigger] poly_ints(m@[j]) == attribute_poly(attributes@[j - 1]),
            decreases CRED_ATTRIBUTES - i,
        {
            match encode_attribute(attributes[i]) {
                Ok(p) => {
                    m[i + 1] = p;
                },
                Err(e) => {
                    return Err(e);
                },
            }
            i += 1;
        }
        assert(polys_view(m@) =~= issue_messages(identity.secret_coeffs(), attributes@));
        let r = sample_small_vec(&DOMAIN_ISSUE_RANDOMNESS, issuance_randomness);
        let mut t_cred = params.mul(&r);
        let ghost bt = polys_view(t_cred@);
        let mut slot: usize = 0;
        while slot < CRED_SLOTS
            invariant
                slot <= CRED_SLOTS,
                bt.len() == 13,
                forall|j: int| 0 <= j < 4 + slot ==> #[trigger] poly_ints(t_cred@[j]) == add_slots(bt, polys_view(m@))[j],
                forall|j: int| 4 + slot <= j < 13 ==> #[trigger] poly_ints(t_cred@[j]) == bt[j],
            decreases CRED_SLOTS - slot,
        {
            t_cred[CRED_L + slot] = poly_add(&t_cred[CRED_L + slot], &m[slot]);
            slot += 1;
        }
        let c = Self { t_cred, r, m };
        assert(c.commitment_view() =~= add_slots(bt, polys_view(m@)));
        Ok(c)
    }
}

/// A credential blinded for one presentation: `t_blind = t_cred + B_1·r_blind`
/// with `r* = r + r_blind`. Fresh blinding per presentation makes two showings
/// of one credential unlinkable.
pub struct BlindedCredential {
    t_blind: [Polynomial; CRED_T],
    r_star: [Polynomial; CRED_L],
    m: [Polynomial; CRED_SLOTS],
}

impl BlindedCredential {
    /// The blinded commitment `t_blind`.
    pub closed spec fn commitment_polys(&self) -> Seq<Polynomial> {
        self.t_blind@
    }

    /// The blinded commitment's coefficients.
    pub open spec fn commitment_view(&self) -> Seq<Seq<int>> {
        polys_view(self.commitment_polys())
    }

    /// The blinded randomness `r*`.
    pub closed spec fn randomness_view(&self) -> Seq<Seq<int>> {
        polys_view(self.r_star@)
    }

    /// The message vector `m`.
    pub closed spec fn messages_view(&self) -> Seq<Seq<int>> {
        polys_view(self.m@)
    }

    /// Blind a credential for presentation.
    ///
    /// `blinding_randomness` must be fresh per presentation, and at least 32
    /// bytes (else `InvalidInputLength`).
    pub fn new(params: &IssuerParams, credential: &Credential, blinding_randomness: &[u8]) -> (r: Result<
        Self,
        IdentityError,
    >)
        ensures
            r is Err <==> blinding_randomness@.len() < 32,
            r matches Err(e) ==> e == IdentityError::InvalidInputLength,
            r matches Ok(b) ==> {
                let rb = small_vec(DOMAIN_BLIND@, blinding_randomness@);
                &&& b.commitment_view() == add_vecs(credential.commitment_view(), mat_vec(params.matrix(), rb))
                &&& b.randomness_view() == add_vecs(credential.randomness_view(), rb)
                &&& b.messages_view() == credential.messages_view()
            },
    {
        if blinding_randomness.len() < 32 {
            return Err(IdentityError::InvalidInputLength);
        }
        let mut r_blind = sample_small_vec(&DOMAIN_BLIND, blinding_randomness);
        let b_r_blind = params.mul(&r_blind);
        let mut t_blind = [Polynomial::zero(); CRED_T];
        let mut i: usize = 0;
        while i < CRED_T
            invariant
                i <= CRED_T,
                forall|j: int| 0 <= j < i ==> #[trigger] poly_ints(t_blind@[j]) == cadd(
                    poly_ints(credential.t_cred@[j]),
                    poly_ints(b_r_blind@[j]),
                ),
            decreases CRED_T - i,
        {
            t_blind[i] = poly_add(&credential.t_cred[i], &b_r_blind[i]);
            i += 1;
        }
        let mut r_star = [Polynomial::zero(); CRED_L];
        let mut i: usize = 0;
        while i < CRED_L
            invariant
                i <= CRED_L,
                forall|j: int| 0 <= j < i ==> #[trigger] poly_ints(r_star@[j]) == cadd(
                    poly_ints(credential.r@[j]),
                    poly_ints(r_blind@[j]),
                ),
            decreases CRED_L - i,
        {
            r_star[i] = poly_add(&credential.r[i], &r_blind[i]);
            i += 1;
        }
        let b = Self { t_blind, r_star, m: credential.m };
        assert(b.commitment_view() =~= add_vecs(credential.commitment_view(), polys_view(b_r_blind@)));
        assert(b.randomness_view() =~= add_vecs(credential.randomness_view(), polys_view(r_blind@)));
        Ok(b)
    }

    /// The public blinded commitment, which the verifier needs.
    pub fn commitment(&self) -> (r: &[Polynomial; CRED_T])
        ensures
            r@ == self.commitment_polys(),
    {
        &self.t_blind
    }
}

// ── Presentation ─────────────────────────────────────────────────────────────

/// A SAAP presentation proving the two linked relations.
pub struct SaapPresentation {
    /// Context tag τ.
    pub tau: [u8; 32],
    /// Which attribute slots are disclosed. Bit `i` is attribute `i`.
    pub disclosed: u8,
    /// Disclosed attribute values; hidden slots are zero and carry no meaning.
    pub disclosed_values: [u64; CRED_ATTRIBUTES],
    /// Fiat-Shamir challenge.
    pub challenge: Polynomial,
    /// Response for the commitment randomness.
    pub z_r: [Polynomial; CRED_L],
    /// Response for the message slots.
    pub z_m: [Polynomial; CRED_SLOTS],
    /// Response for the identity secret.
    pub z_s: Polynomial,
    /// Response for the projection error term.
    pub z_e: Polynomial,
}

/// Little-endian bytes of each coefficient, as a 32-bit two's-complement word.
pub open spec fn coeff_bytes(p: Seq<int>) -> Seq<u8>
    decreases p.len(),
{
    if p.len() == 0 {
        seq![]
    } else {
        coeff_bytes(p.drop_last()) + le_u32(p.last() as u32)
    }
}

/// [`coeff_bytes`] of each polynomial, concatenated.
pub open spec fn vec_bytes(ps: Seq<Seq<int>>) -> Seq<u8>
    decreases ps.len(),
{
    if ps.len() == 0 {
        seq![]
    } else {
        vec_bytes(ps.drop_last()) + coeff_bytes(ps.last())
    }
}

/// Little-endian bytes of each value, concatenated.
pub open spec fn u64s_bytes(vs: Seq<u64>) -> Seq<u8>
    decreases vs.len(),
{
    if vs.len() == 0 {
        seq![]
    } else {
        u64s_bytes(vs.drop_last()) + le_u64(vs.last())
    }
}

/// SHAKE-256 input of the presentation challenge.
pub open spec fn saap_challenge_input(
    w1: Seq<Seq<int>>,
    w2: Seq<int>,
    b_tau: Seq<int>,
    t_blind: Seq<Seq<int>>,
    disclosed: u8,
    dvals: Seq<u64>,
    tau: Seq<u8>,
) -> Seq<u8> {
    DOMAIN_SAAP_CHALLENGE@ + vec_bytes(w1) + coeff_bytes(w2) + coeff_bytes(b_tau) + vec_bytes(t_blind) + seq![disclosed]
        + u64s_bytes(dvals) + le_u32(tau.len() as u32) + tau
}

/// The presentation challenge: 39 coefficients `±1` drawn from the transcript.
#[verifier::opaque]
pub open spec fn saap_challenge(
    w1: Seq<Seq<int>>,
    w2: Seq<int>,
    b_tau: Seq<int>,
    t_blind: Seq<Seq<int>>,
    disclosed: u8,
    dvals: Seq<u64>,
    tau: Seq<u8>,
) -> Seq<int> {
    challenge_coeffs(saap_challenge_input(w1, w2, b_tau, t_blind, disclosed, dvals, tau), 39)
}

/// Append [`coeff_bytes`] of `p`.
fn push_coeff_bytes(v: &mut Vec<u8>, p: &Polynomial)
    ensures
        final(v)@ == old(v)@ + coeff_bytes(poly_ints(*p)),
{
    let ghost start = v@;
    let ghost pi = poly_ints(*p);
    let mut i: usize = 0;
    while i < RING_N
        invariant
            i <= RING_N,
            pi == poly_ints(*p),
            pi.len() == 256,
            v@ == start + coeff_bytes(pi.subrange(0, i as int)),
        decreases RING_N - i,
    {
        let c = p.coeffs[i];
        push_u32_le(v, c as u32);
        proof {
            let s = pi.subrange(0, i + 1);
            assert(s.drop_last() =~= pi.subrange(0, i as int));
            assert(s.last() == c as int);
            assert(v@ =~= start + coeff_bytes(s));
        }
        i += 1;
    }
    assert(pi.subrange(0, 256) =~= pi);
}

/// Append [`vec_bytes`] of `ps`.
pub(crate) fn push_vec_bytes(v: &mut Vec<u8>, ps: &[Polynomial])
    ensures
        final(v)@ == old(v)@ + vec_bytes(polys_view(ps@)),
{
    let ghost start = v@;
    let ghost pv = polys_view(ps@);
    let mut i: usize = 0;
    while i < ps.len()
        invariant
            i <= ps@.len(),
            pv == polys_view(ps@),
            v@ == start + vec_bytes(pv.subrange(0, i as int)),
        decreases ps@.len() - i,
    {
        push_coeff_bytes(v, &ps[i]);
        proof {
            let s = pv.subrange(0, i + 1);
            assert(s.drop_last() =~= pv.subrange(0, i as int));
            assert(v@ =~= start + vec_bytes(s));
        }
        i += 1;
    }
    assert(pv.subrange(0, ps@.len() as int) =~= pv);
}

/// Append [`u64s_bytes`] of `vs`.
fn push_u64s_bytes(v: &mut Vec<u8>, vs: &[u64])
    ensures
        final(v)@ == old(v)@ + u64s_bytes(vs@),
{
    let ghost start = v@;
    let mut i: usize = 0;
    while i < vs.len()
        invariant
            i <= vs@.len(),
            v@ == start + u64s_bytes(vs@.subrange(0, i as int)),
        decreases vs@.len() - i,
    {
        push_u64_le(v, vs[i]);
        proof {
            let s = vs@.subrange(0, i + 1);
            assert(s.drop_last() =~= vs@.subrange(0, i as int));
            assert(v@ =~= start + u64s_bytes(s));
        }
        i += 1;
    }
    assert(vs@.subrange(0, vs@.len() as int) =~= vs@);
}

/// The Fiat-Shamir challenge over the full presentation transcript.
fn derive_challenge(
    w1: &[Polynomial; CRED_T],
    w2: &Polynomial,
    b_tau: &Polynomial,
    t_blind: &[Polynomial; CRED_T],
    disclosed: u8,
    disclosed_values: &[u64; CRED_ATTRIBUTES],
    tau: &[u8],
) -> (c: Polynomial)
    ensures
        poly_ints(c) == saap_challenge(
            polys_view(w1@),
            poly_ints(*w2),
            poly_ints(*b_tau),
            polys_view(t_blind@),
            disclosed,
            disclosed_values@,
            tau@,
        ),
{
    let mut input: Vec<u8> = Vec::new();
    push_bytes(&mut input, &DOMAIN_SAAP_CHALLENGE);
    push_vec_bytes(&mut input, w1);
    push_coeff_bytes(&mut input, w2);
    push_coeff_bytes(&mut input, b_tau);
    push_vec_bytes(&mut input, t_blind);
    input.push(disclosed);
    push_u64s_bytes(&mut input, disclosed_values);
    push_u32_le(&mut input, tau.len() as u32);
    push_bytes(&mut input, tau);
    assert(input@ =~= saap_challenge_input(
        polys_view(w1@),
        poly_ints(*w2),
        poly_ints(*b_tau),
        polys_view(t_blind@),
        disclosed,
        disclosed_values@,
        tau@,
    ));
    let mut xof = XofStream::new(input, 1024);
    let c = hash_to_challenge_from_xof(&mut xof);
    proof {
        reveal(saap_challenge);
    }
    c
}

/// Every presentation challenge has 256 coefficients.
pub proof fn lemma_saap_challenge_len(
    w1: Seq<Seq<int>>,
    w2: Seq<int>,
    b_tau: Seq<int>,
    t_blind: Seq<Seq<int>>,
    disclosed: u8,
    dvals: Seq<u64>,
    tau: Seq<u8>,
)
    ensures
        saap_challenge(w1, w2, b_tau, t_blind, disclosed, dvals, tau).len() == 256,
{
    reveal(saap_challenge);
    crate::xof::lemma_challenge_values(saap_challenge_input(w1, w2, b_tau, t_blind, disclosed, dvals, tau), 39, 0);
}

/// Attribute `i` is marked disclosed in `d`.
pub open spec fn disclosed_bit(d: u8, i: int) -> bool {
    (d as int / crate::xof::pow2_small(i)) % 2 == 1
}

/// The disclosed messages; every other slot zero. Slot 0 is never disclosed.
pub open spec fn public_messages(m: Seq<Seq<int>>, d: u8) -> Seq<Seq<int>> {
    Seq::new(9, |slot: int| if 1 <= slot && disclosed_bit(d, slot - 1) { m[slot] } else { zero_poly() })
}

/// The hidden messages; every disclosed slot zero. Slot 0 is always hidden.
pub open spec fn hidden_messages(m: Seq<Seq<int>>, d: u8) -> Seq<Seq<int>> {
    Seq::new(9, |slot: int| if slot == 0 || !disclosed_bit(d, slot - 1) { m[slot] } else { zero_poly() })
}

/// Test bit `i` of the disclosure mask.
fn is_disclosed(d: u8, i: usize) -> (r: bool)
    requires
        i < 8,
    ensures
        r == disclosed_bit(d, i as int),
{
    proof {
        crate::xof::lemma_shift_bit(d, i as u8);
    }
    (d >> (i as u8)) & 1 == 1
}

/// Split the message vector into its disclosed and hidden halves.
///
/// Slot 0 is always hidden regardless of the mask: it is the identity binding.
fn split_messages(m: &[Polynomial; CRED_SLOTS], disclosed: u8) -> (r: (
    [Polynomial; CRED_SLOTS],
    [Polynomial; CRED_SLOTS],
))
    ensures
        polys_view(r.0@) == public_messages(polys_view(m@), disclosed),
        polys_view(r.1@) == hidden_messages(polys_view(m@), disclosed),
{
    let mut m_pub = [Polynomial::zero(); CRED_SLOTS];
    let mut m_hidden = [Polynomial::zero(); CRED_SLOTS];
    m_hidden[IDENTITY_SLOT] = m[IDENTITY_SLOT];
    let mut i: usize = 0;
    while i < CRED_ATTRIBUTES
        invariant
            i <= CRED_ATTRIBUTES,
            poly_ints(m_pub@[0]) == zero_poly(),
            m_hidden@[0] == m@[0],
            forall|slot: int| 1 <= slot <= i ==> #[trigger] poly_ints(m_pub@[slot]) == public_messages(polys_view(m@), disclosed)[slot],
            forall|slot: int| 1 <= slot <= i ==> #[trigger] poly_ints(m_hidden@[slot]) == hidden_messages(polys_view(m@), disclosed)[slot],
            forall|slot: int| i < slot < 9 ==> #[trigger] poly_ints(m_pub@[slot]) == zero_poly(),
            forall|slot: int| i < slot < 9 ==> #[trigger] poly_ints(m_hidden@[slot]) == zero_poly(),
        decreases CRED_ATTRIBUTES - i,
    {
        let slot = i + 1;
        if is_disclosed(disclosed, i) {
            m_pub[slot] = m[slot];
        } else {
            m_hidden[slot] = m[slot];
        }
        i += 1;
    }
    assert(polys_view(m_pub@) =~= public_messages(polys_view(m@), disclosed));
    assert(polys_view(m_hidden@) =~= hidden_messages(polys_view(m@), disclosed));
    (m_pub, m_hidden)
}

/// `|x|`.
pub open spec fn abs_int(x: int) -> int {
    if x < 0 {
        -x
    } else {
        x
    }
}

/// The largest `|c|` among the first `n` coefficients (0 if none).
pub open spec fn max_abs_upto(s: Seq<int>, n: int) -> int
    decreases n,
{
    if n <= 0 {
        0
    } else {
        let r = max_abs_upto(s, n - 1);
        if abs_int(s[n - 1]) > r {
            abs_int(s[n - 1])
        } else {
            r
        }
    }
}

/// Infinity norm of a polynomial's coefficients.
pub open spec fn centred_norm(s: Seq<int>) -> int {
    max_abs_upto(s, 256)
}

/// No coefficient is `i32::MIN`, whose absolute value does not fit in `i32`.
pub open spec fn abs_fits(p: Polynomial) -> bool {
    forall|i: int| 0 <= i < 256 ==> #[trigger] p.coeffs@[i] != i32::MIN
}

/// Infinity norm: the largest absolute coefficient.
pub(crate) fn infinity_norm(p: &Polynomial) -> (r: i32)
    requires
        abs_fits(*p),
    ensures
        r as int == centred_norm(poly_ints(*p)),
{
    let mut m: i32 = 0;
    let mut i: usize = 0;
    while i < RING_N
        invariant
            i <= RING_N,
            abs_fits(*p),
            m as int == max_abs_upto(poly_ints(*p), i as int),
            m >= 0,
        decreases RING_N - i,
    {
        let c = p.coeffs[i];
        let a = if c < 0 { -c } else { c };
        if a > m {
            m = a;
        }
        i += 1;
    }
    m
}

/// `x | (a ^ b)` is zero exactly when `x` is zero and `a == b`.
proof fn lemma_or_xor_zero(x: i32, a: i32, b: i32)
    ensures
        ((x | (a ^ b)) == 0) <==> (x == 0 && a == b),
{
    assert(((x | (a ^ b)) == 0) <==> (x == 0 && a == b)) by (bit_vector);
}

/// Constant-time equality of two polynomials' coefficients.
fn coeffs_equal(a: &Polynomial, b: &Polynomial) -> (r: bool)
    ensures
        r <==> poly_ints(*a) == poly_ints(*b),
{
    let mut mismatch: i32 = 0;
    let mut i: usize = 0;
    while i < RING_N
        invariant
            i <= RING_N,
            (mismatch == 0) <==> (forall|j: int| 0 <= j < i ==> #[trigger] a.coeffs@[j] == b.coeffs@[j]),
        decreases RING_N - i,
    {
        proof {
            lemma_or_xor_zero(mismatch, a.coeffs@[i as int], b.coeffs@[i as int]);
        }
        mismatch = mismatch | (a.coeffs[i] ^ b.coeffs[i]);
        i += 1;
    }
    proof {
        if mismatch == 0 {
            assert(poly_ints(*a) =~= poly_ints(*b));
        } else {
            if poly_ints(*a) == poly_ints(*b) {
                assert forall|j: int| 0 <= j < 256 implies #[trigger] a.coeffs@[j] == b.coeffs@[j] by {
                    assert(poly_ints(*a)[j] == poly_ints(*b)[j]);
                }
            }
        }
    }
    mismatch == 0
}

// ── Verification ─────────────────────────────────────────────────────────────

/// The short responses `z_s`, `z_e` and every `z_r[i]` are below the rejection
/// bound.
pub open spec fn short_responses_ok(z_s: Seq<int>, z_e: Seq<int>, z_r: Seq<Seq<int>>) -> bool {
    &&& centred_norm(z_s) < REJECTION_BOUND
    &&& centred_norm(z_e) < REJECTION_BOUND
    &&& forall|i: int| 0 <= i < 4 ==> #[trigger] centred_norm(z_r[i]) < REJECTION_BOUND
}

/// Every disclosed value is below `q`.
pub open spec fn disclosed_in_range(d: u8, dvals: Seq<u64>) -> bool {
    forall|i: int| 0 <= i < 8 ==> #[trigger] disclosed_bit(d, i) ==> dvals[i] < q_int()
}

/// `0 ‖ m_pub` rebuilt from the disclosed values.
pub open spec fn disclosed_messages(d: u8, dvals: Seq<u64>) -> Seq<Seq<int>> {
    Seq::new(9, |slot: int| if 1 <= slot && disclosed_bit(d, slot - 1) { attribute_poly(dvals[slot - 1]) } else { zero_poly() })
}

/// `W_1' = B_1·z_r + (0 ‖ z_m) − c·(t_blind − (0 ‖ m_pub))`.
pub open spec fn membership_commitment(
    m: Seq<Seq<Seq<int>>>,
    c: Seq<int>,
    z_r: Seq<Seq<int>>,
    z_m: Seq<Seq<int>>,
    t_blind: Seq<Seq<int>>,
    m_pub: Seq<Seq<int>>,
) -> Seq<Seq<int>> {
    let base = add_slots(mat_vec(m, z_r), z_m);
    Seq::new(
        13,
        |row: int| csub(base[row], cmul(c, if row < 4 { t_blind[row] } else { csub(t_blind[row], m_pub[row - 4]) })),
    )
}

/// `W_2' = A_τ·z_s + z_e − c·b_τ`.
pub open spec fn identity_commitment(a: Seq<int>, b: Seq<int>, c: Seq<int>, z_s: Seq<int>, z_e: Seq<int>) -> Seq<int> {
    csub(cadd(cmul(a, z_s), z_e), cmul(c, b))
}

/// The verdict on a presentation given by its parts: challenge `c`, responses
/// `z_r, z_m, z_s, z_e`, disclosure mask and values, for issuer matrix `m`,
/// blinded commitment `t_blind`, projection matrix `a`, public projection `b`
/// and context `tau`.
///
/// `Ok(false)` when a short response is out of bound or the linkage
/// `z_m[0] == z_s` fails; `Err(InvalidInputLength)` when a disclosed value is
/// not below `q`; otherwise `Ok` of whether the recomputed challenge equals
/// `c`.
pub open spec fn verify_views(
    m: Seq<Seq<Seq<int>>>,
    c: Seq<int>,
    z_r: Seq<Seq<int>>,
    z_m: Seq<Seq<int>>,
    z_s: Seq<int>,
    z_e: Seq<int>,
    disclosed: u8,
    dvals: Seq<u64>,
    t_blind: Seq<Seq<int>>,
    a: Seq<int>,
    b: Seq<int>,
    tau: Seq<u8>,
) -> Result<bool, IdentityError> {
    if !short_responses_ok(z_s, z_e, z_r) {
        Ok(false)
    } else if z_m[0] != z_s {
        Ok(false)
    } else if !disclosed_in_range(disclosed, dvals) {
        Err(IdentityError::InvalidInputLength)
    } else {
        let m_pub = disclosed_messages(disclosed, dvals);
        let w1 = membership_commitment(m, c, z_r, z_m, t_blind, m_pub);
        let w2 = identity_commitment(a, b, c, z_s, z_e);
        Ok(saap_challenge(w1, w2, b, t_blind, disclosed, dvals, tau) == c)
    }
}

/// Soundness of the identity linkage: a presentation is accepted only if its
/// response for the credential's identity slot is the response for the
/// projection's secret, both short responses are within bound, and its
/// challenge is the hash of the recomputed commitments.
pub proof fn lemma_accepted_presentation_is_linked(
    m: Seq<Seq<Seq<int>>>,
    c: Seq<int>,
    z_r: Seq<Seq<int>>,
    z_m: Seq<Seq<int>>,
    z_s: Seq<int>,
    z_e: Seq<int>,
    disclosed: u8,
    dvals: Seq<u64>,
    t_blind: Seq<Seq<int>>,
    a: Seq<int>,
    b: Seq<int>,
    tau: Seq<u8>,
)
    requires
        verify_views(m, c, z_r, z_m, z_s, z_e, disclosed, dvals, t_blind, a, b, tau) == Ok::<bool, IdentityError>(
            true,
        ),
    ensures
        z_m[0] == z_s,
        short_responses_ok(z_s, z_e, z_r),
        disclosed_in_range(disclosed, dvals),
        c == saap_challenge(
            membership_commitment(m, c, z_r, z_m, t_blind, disclosed_messages(disclosed, dvals)),
            identity_commitment(a, b, c, z_s, z_e),
            b,
            t_blind,
            disclosed,
            dvals,
            tau,
        ),
{
}

/// The verdict on presentation `p`; see [`verify_views`].
pub open spec fn verify_spec(
    m: Seq<Seq<Seq<int>>>,
    p: SaapPresentation,
    t_blind: Seq<Seq<int>>,
    a: Seq<int>,
    b: Seq<int>,
    tau: Seq<u8>,
) -> Result<bool, IdentityError> {
    verify_views(
        m,
        poly_ints(p.challenge),
        polys_view(p.z_r@),
        polys_view(p.z_m@),
        poly_ints(p.z_s),
        poly_ints(p.z_e),
        p.disclosed,
        p.disclosed_values@,
        t_blind,
        a,
        b,
        tau,
    )
}

/// The short responses of `p` have no `i32::MIN` coefficient.
pub open spec fn responses_abs_fit(p: SaapPresentation) -> bool {
    &&& abs_fits(p.z_s)
    &&& abs_fits(p.z_e)
    &&& forall|i: int| 0 <= i < 4 ==> #[trigger] abs_fits(p.z_r@[i])
}

/// `0 ‖ m_pub` rebuilt from the disclosed values; `InvalidInputLength` if a
/// disclosed value is not below `q`.
fn rebuild_public(disclosed: u8, disclosed_values: &[u64; CRED_ATTRIBUTES]) -> (r: Result<
    [Polynomial; CRED_SLOTS],
    IdentityError,
>)
    ensures
        r is Ok <==> disclosed_in_range(disclosed, disclosed_values@),
        r matches Err(e) ==> e == IdentityError::InvalidInputLength,
        r matches Ok(m) ==> polys_view(m@) == disclosed_messages(disclosed, disclosed_values@),
{
    let ghost target = disclosed_messages(disclosed, disclosed_values@);
    let mut m_pub = [Polynomial::zero(); CRED_SLOTS];
    let mut i: usize = 0;
    while i < CRED_ATTRIBUTES
        invariant
            i <= CRED_ATTRIBUTES,
            target == disclosed_messages(disclosed, disclosed_values@),
            forall|j: int| 0 <= j < i ==> #[trigger] disclosed_bit(disclosed, j) ==> disclosed_values@[j] < q_int(),
            poly_ints(m_pub@[0]) == zero_poly(),
            forall|slot: int| 1 <= slot <= i ==> #[trigger] poly_ints(m_pub@[slot]) == target[slot],
            forall|slot: int| i < slot < 9 ==> #[trigger] poly_ints(m_pub@[slot]) == zero_poly(),
        decreases CRED_ATTRIBUTES - i,
    {
        if is_disclosed(disclosed, i) {
            match encode_attribute(disclosed_values[i]) {
                Ok(p) => {
                    m_pub[i + 1] = p;
                },
                Err(e) => {
                    return Err(e);
                },
            }
        }
        i += 1;
    }
    assert(polys_view(m_pub@) =~= target);
    Ok(m_pub)
}

/// `W_1' = B_1·z_r + (0 ‖ z_m) − c·(t_blind − (0 ‖ m_pub))`.
fn membership_response(
    params: &IssuerParams,
    c: &Polynomial,
    z_r: &[Polynomial; CRED_L],
    z_m: &[Polynomial; CRED_SLOTS],
    t_blind: &[Polynomial; CRED_T],
    m_pub: &[Polynomial; CRED_SLOTS],
) -> (w1: [Polynomial; CRED_T])
    ensures
        polys_view(w1@) == membership_commitment(
            params.matrix(),
            poly_ints(*c),
            polys_view(z_r@),
            polys_view(z_m@),
            polys_view(t_blind@),
            polys_view(m_pub@),
        ),
{
    let ghost zm = polys_view(z_m@);
    let mut w1 = params.mul(z_r);
    let ghost bz = polys_view(w1@);
    let mut slot: usize = 0;
    while slot < CRED_SLOTS
        invariant
            slot <= CRED_SLOTS,
            bz.len() == 13,
            zm == polys_view(z_m@),
            forall|j: int| 0 <= j < 4 + slot ==> #[trigger] poly_ints(w1@[j]) == add_slots(bz, zm)[j],
            forall|j: int| 4 + slot <= j < 13 ==> #[trigger] poly_ints(w1@[j]) == bz[j],
        decreases CRED_SLOTS - slot,
    {
        w1[CRED_L + slot] = poly_add(&w1[CRED_L + slot], &z_m[slot]);
        slot += 1;
    }
    let ghost target = membership_commitment(
        params.matrix(),
        poly_ints(*c),
        polys_view(z_r@),
        zm,
        polys_view(t_blind@),
        polys_view(m_pub@),
    );
    let mut row: usize = 0;
    while row < CRED_T
        invariant
            row <= CRED_T,
            bz == mat_vec(params.matrix(), polys_view(z_r@)),
            zm == polys_view(z_m@),
            target == membership_commitment(
                params.matrix(),
                poly_ints(*c),
                polys_view(z_r@),
                zm,
                polys_view(t_blind@),
                polys_view(m_pub@),
            ),
            forall|j: int| 0 <= j < row ==> #[trigger] poly_ints(w1@[j]) == target[j],
            forall|j: int| row <= j < 13 ==> #[trigger] poly_ints(w1@[j]) == add_slots(bz, zm)[j],
        decreases CRED_T - row,
    {
        let mut t = t_blind[row];
        if row >= CRED_L {
            t = poly_sub(&t, &m_pub[row - CRED_L]);
        }
        let ct = poly_mul_negacyclic(c, &t);
        w1[row] = poly_sub(&w1[row], &ct);
        row += 1;
    }
    assert(polys_view(w1@) =~= target);
    w1
}

/// The short responses are below the rejection bound.
fn short_responses_within_bound(presentation: &SaapPresentation) -> (r: bool)
    requires
        responses_abs_fit(*presentation),
    ensures
        r == short_responses_ok(
            poly_ints(presentation.z_s),
            poly_ints(presentation.z_e),
            polys_view(presentation.z_r@),
        ),
{
    if infinity_norm(&presentation.z_s) >= REJECTION_BOUND || infinity_norm(&presentation.z_e) >= REJECTION_BOUND {
        return false;
    }
    let mut i: usize = 0;
    while i < CRED_L
        invariant
            i <= CRED_L,
            responses_abs_fit(*presentation),
            centred_norm(poly_ints(presentation.z_s)) < REJECTION_BOUND,
            centred_norm(poly_ints(presentation.z_e)) < REJECTION_BOUND,
            forall|j: int| 0 <= j < i ==> #[trigger] centred_norm(polys_view(presentation.z_r@)[j]) < REJECTION_BOUND,
        decreases CRED_L - i,
    {
        if infinity_norm(&presentation.z_r[i]) >= REJECTION_BOUND {
            assert(centred_norm(polys_view(presentation.z_r@)[i as int]) >= REJECTION_BOUND);
            return false;
        }
        i += 1;
    }
    true
}

/// Verify a SAAP presentation.
///
/// Returns `Ok(false)` for a well-formed presentation that does not verify, and
/// `Err` only for input that cannot be processed (a disclosed value at or
/// above `q`).
pub fn verify(
    params: &IssuerParams,
    presentation: &SaapPresentation,
    t_blind: &[Polynomial; CRED_T],
    projection: &EphemeralProjection,
    tau: &[u8],
) -> (r: Result<bool, IdentityError>)
    requires
        responses_abs_fit(*presentation),
    ensures
        r == Ok::<bool, IdentityError>(true) ==> presentation.z_m@[IDENTITY_SLOT as int].coeffs@
            == presentation.z_s.coeffs@,
        r == verify_spec(
            params.matrix(),
            *presentation,
            polys_view(t_blind@),
            centred_of(projection.matrix_a@),
            centred_of(projection.public_b@),
            tau@,
        ),
{
    let a_tau = from_plp(&projection.matrix_a);
    let b_tau = from_plp(&projection.public_b);
    let c = &presentation.challenge;

    // 1. Norm checks on the short responses.
    if !short_responses_within_bound(presentation) {
        return Ok(false);
    }

    // 2. The linkage check: slot 0's response must be the identity response.
    if !coeffs_equal(&presentation.z_m[IDENTITY_SLOT], &presentation.z_s) {
        return Ok(false);
    }
    proof {
        let zm0 = presentation.z_m@[0].coeffs@;
        let zs = presentation.z_s.coeffs@;
        assert forall|k: int| 0 <= k < 256 implies #[trigger] zm0[k] == zs[k] by {
            assert(crate::ring::i32s_to_ints(zm0)[k] == crate::ring::i32s_to_ints(zs)[k]);
        }
        assert(zm0 =~= zs);
    }

    // 3. Rebuild m_pub from the disclosed values the presentation carries.
    let m_pub = match rebuild_public(presentation.disclosed, &presentation.disclosed_values) {
        Ok(m) => m,
        Err(e) => {
            return Err(e);
        },
    };

    // 4. W_1' = B_1·z_r + (0 ‖ z_m) − c·(t_blind − (0 ‖ m_pub))
    let w1 = membership_response(params, c, &presentation.z_r, &presentation.z_m, t_blind, &m_pub);

    // 5. W_2' = A_τ·z_s + z_e − c·b_τ.
    let az = poly_mul_negacyclic(&a_tau, &presentation.z_s);
    let lhs = poly_add(&az, &presentation.z_e);
    let cb = poly_mul_negacyclic(c, &b_tau);
    let w2 = poly_sub(&lhs, &cb);

    // 6. Challenge consistency.
    let c_prime = derive_challenge(
        &w1,
        &w2,
        &b_tau,
        t_blind,
        presentation.disclosed,
        &presentation.disclosed_values,
        tau,
    );
    Ok(coeffs_equal(&c_prime, c))
}

// ── Proving ──────────────────────────────────────────────────────────────────

/// The `[0, q)` representative of a centred coefficient: negative values
/// move up by `q`.
pub open spec fn decentred(x: int) -> int {
    if x < 0 {
        x + q_int()
    } else {
        x
    }
}

/// The disclosed values a presentation publishes: the constant coefficient of
/// each disclosed message, moved back into `[0, q)` (the attribute value
/// itself), as a `u64`; zero for hidden slots.
pub open spec fn disclosed_values_of(m_pub: Seq<Seq<int>>, d: u8) -> Seq<u64> {
    Seq::new(8, |i: int| if disclosed_bit(d, i) { decentred(m_pub[i + 1][0]) as u64 } else { 0u64 })
}

/// Everything a presentation attempt is computed from.
pub struct ProofInputs {
    /// Issuer matrix `B_1`.
    pub m: Seq<Seq<Seq<int>>>,
    /// Blinded commitment `t_blind`.
    pub t_blind: Seq<Seq<int>>,
    /// Blinded randomness `r*`.
    pub r_star: Seq<Seq<int>>,
    /// Hidden messages.
    pub hidden: Seq<Seq<int>>,
    /// Projection matrix `A_τ`, centred.
    pub a: Seq<int>,
    /// Public projection `b_τ`, centred.
    pub b: Seq<int>,
    /// Master secret `s`, centred.
    pub s: Seq<int>,
    /// Projection error `e_τ`, centred.
    pub e: Seq<int>,
    /// Disclosure mask.
    pub disclosed: u8,
    /// Published disclosed values.
    pub dvals: Seq<u64>,
    /// Context bytes.
    pub tau: Seq<u8>,
    /// Presentation randomness.
    pub pres: Seq<u8>,
}

/// The inputs of a presentation, from the credential's and the identity's
/// mathematical parts.
pub open spec fn proof_inputs_from(
    m: Seq<Seq<Seq<int>>>,
    t_blind: Seq<Seq<int>>,
    r_star: Seq<Seq<int>>,
    messages: Seq<Seq<int>>,
    a: Seq<u32>,
    b: Seq<u32>,
    s: Seq<u32>,
    tau: Seq<u8>,
    rho: Seq<u8>,
    disclosed: u8,
    pres: Seq<u8>,
) -> ProofInputs {
    ProofInputs {
        m,
        t_blind,
        r_star,
        hidden: hidden_messages(messages, disclosed),
        a: centred_of(a),
        b: centred_of(b),
        s: centred_of(s),
        e: centred_of(error_poly(rho, tau)),
        disclosed,
        dvals: disclosed_values_of(public_messages(messages, disclosed), disclosed),
        tau,
        pres,
    }
}

/// The inputs of [`prove`] as mathematics.
pub open spec fn proof_inputs(
    params: IssuerParams,
    blinded: BlindedCredential,
    identity: MasterIdentity,
    projection: EphemeralProjection,
    tau: Seq<u8>,
    rho: Seq<u8>,
    disclosed: u8,
    pres: Seq<u8>,
) -> ProofInputs {
    proof_inputs_from(
        params.matrix(),
        blinded.commitment_view(),
        blinded.randomness_view(),
        blinded.messages_view(),
        projection.matrix_a@,
        projection.public_b@,
        identity.secret_coeffs(),
        tau,
        rho,
        disclosed,
        pres,
    )
}

/// SHAKE-256 input of a presentation mask: tag byte, attempt number and
/// optional index, framed after the presentation randomness.
pub open spec fn mask_parts(pres: Seq<u8>, tag: u8, it: int) -> Seq<Seq<u8>> {
    seq![pres, seq![tag], seq![it as u8]]
}

/// Short masks `y_r` of attempt `it`.
pub open spec fn attempt_y_r(pres: Seq<u8>, it: int) -> Seq<Seq<int>> {
    Seq::new(4, |i: int| short_mask(framed(DOMAIN_PROOF_MASK@, mask_parts(pres, 114u8, it).push(seq![i as u8]))))
}

/// Short mask `y_s` of attempt `it`.
pub open spec fn attempt_y_s(pres: Seq<u8>, it: int) -> Seq<int> {
    short_mask(framed(DOMAIN_PROOF_MASK@, mask_parts(pres, 115u8, it)))
}

/// Short mask `y_e` of attempt `it`.
pub open spec fn attempt_y_e(pres: Seq<u8>, it: int) -> Seq<int> {
    short_mask(framed(DOMAIN_PROOF_MASK@, mask_parts(pres, 101u8, it)))
}

/// Message masks `y_m` of attempt `it`: `y_s` in slot 0, uniform elsewhere.
pub open spec fn attempt_y_m(pres: Seq<u8>, it: int) -> Seq<Seq<int>> {
    Seq::new(
        9,
        |slot: int|
            if slot == 0 {
                attempt_y_s(pres, it)
            } else {
                uniform_poly(framed(DOMAIN_PROOF_MASK@, mask_parts(pres, 109u8, it).push(seq![slot as u8])))
            },
    )
}

/// `W_1 = B_1·y_r + (0^L ‖ y_m)` of attempt `it`.
pub open spec fn attempt_w1(inp: ProofInputs, it: int) -> Seq<Seq<int>> {
    add_slots(mat_vec(inp.m, attempt_y_r(inp.pres, it)), attempt_y_m(inp.pres, it))
}

/// `W_2 = A_τ·y_s + y_e` of attempt `it`.
pub open spec fn attempt_w2(inp: ProofInputs, it: int) -> Seq<int> {
    cadd(cmul(inp.a, attempt_y_s(inp.pres, it)), attempt_y_e(inp.pres, it))
}

/// The challenge of attempt `it`.
pub open spec fn attempt_challenge(inp: ProofInputs, it: int) -> Seq<int> {
    saap_challenge(attempt_w1(inp, it), attempt_w2(inp, it), inp.b, inp.t_blind, inp.disclosed, inp.dvals, inp.tau)
}

/// `z_r = y_r + c·r*` of attempt `it`.
pub open spec fn attempt_z_r(inp: ProofInputs, it: int) -> Seq<Seq<int>> {
    Seq::new(4, |i: int| cadd(attempt_y_r(inp.pres, it)[i], cmul(attempt_challenge(inp, it), inp.r_star[i])))
}

/// `z_m = y_m + c·m_hidden` of attempt `it`.
pub open spec fn attempt_z_m(inp: ProofInputs, it: int) -> Seq<Seq<int>> {
    Seq::new(9, |slot: int| cadd(attempt_y_m(inp.pres, it)[slot], cmul(attempt_challenge(inp, it), inp.hidden[slot])))
}

/// `z_s = y_s + c·s` of attempt `it`.
pub open spec fn attempt_z_s(inp: ProofInputs, it: int) -> Seq<int> {
    cadd(attempt_y_s(inp.pres, it), cmul(attempt_challenge(inp, it), inp.s))
}

/// `z_e = y_e + c·e_τ` of attempt `it`.
pub open spec fn attempt_z_e(inp: ProofInputs, it: int) -> Seq<int> {
    cadd(attempt_y_e(inp.pres, it), cmul(attempt_challenge(inp, it), inp.e))
}

/// Attempt `it` passes rejection sampling.
pub open spec fn attempt_ok(inp: ProofInputs, it: int) -> bool {
    short_responses_ok(attempt_z_s(inp, it), attempt_z_e(inp, it), attempt_z_r(inp, it))
}

/// The first attempt below `n` that passes rejection sampling, if any.
pub open spec fn first_ok(inp: ProofInputs, n: nat) -> Option<int>
    decreases n,
{
    if n == 0 {
        None
    } else {
        match first_ok(inp, (n - 1) as nat) {
            Some(i) => Some(i),
            None => if attempt_ok(inp, n - 1) {
                Some(n - 1)
            } else {
                None
            },
        }
    }
}

/// `p` is the presentation of attempt `it`.
pub open spec fn is_attempt(p: SaapPresentation, inp: ProofInputs, tau32: Seq<u8>, it: int) -> bool {
    &&& p.tau@ == tau32
    &&& p.disclosed == inp.disclosed
    &&& p.disclosed_values@ == inp.dvals
    &&& poly_ints(p.challenge) == attempt_challenge(inp, it)
    &&& polys_view(p.z_r@) == attempt_z_r(inp, it)
    &&& polys_view(p.z_m@) == attempt_z_m(inp, it)
    &&& poly_ints(p.z_s) == attempt_z_s(inp, it)
    &&& poly_ints(p.z_e) == attempt_z_e(inp, it)
}

/// A presentation mask: `tag`, the attempt's nonce, and optionally an index.
fn mask_stream(pres: &[u8], tag: u8, nonce: u8, index: Option<u8>) -> (s: XofStream)
    ensures
        s.wf(),
        s.source() == framed(
            DOMAIN_PROOF_MASK@,
            match index {
                Some(i) => mask_parts(pres@, tag, nonce as int).push(seq![i]),
                None => mask_parts(pres@, tag, nonce as int),
            },
        ),
{
    let t = [tag];
    let n = [nonce];
    match index {
        Some(i) => {
            let idx = [i];
            let parts: [&[u8]; 4] = [pres, &t, &n, &idx];
            proof {
                assert(t@ =~= seq![tag]);
                assert(n@ =~= seq![nonce]);
                assert(idx@ =~= seq![i]);
                assert(slices_view(parts@) =~= mask_parts(pres@, tag, nonce as int).push(seq![i]));
            }
            xof_for(&DOMAIN_PROOF_MASK, &parts)
        },
        None => {
            let parts: [&[u8]; 3] = [pres, &t, &n];
            proof {
                assert(t@ =~= seq![tag]);
                assert(n@ =~= seq![nonce]);
                assert(slices_view(parts@) =~= mask_parts(pres@, tag, nonce as int));
            }
            xof_for(&DOMAIN_PROOF_MASK, &parts)
        },
    }
}

/// The masks of attempt `it`.
fn attempt_masks(pres: &[u8], it: u8) -> (r: ([Polynomial; CRED_L], Polynomial, Polynomial, [Polynomial; CRED_SLOTS]))
    ensures
        polys_view(r.0@) == attempt_y_r(pres@, it as int),
        poly_ints(r.1) == attempt_y_s(pres@, it as int),
        poly_ints(r.2) == attempt_y_e(pres@, it as int),
        polys_view(r.3@) == attempt_y_m(pres@, it as int),
{
    let mut y_r = [Polynomial::zero(); CRED_L];
    let mut i: usize = 0;
    while i < CRED_L
        invariant
            i <= CRED_L,
            forall|j: int| 0 <= j < i ==> #[trigger] poly_ints(y_r@[j]) == attempt_y_r(pres@, it as int)[j],
        decreases CRED_L - i,
    {
        let mut xof = mask_stream(pres, 114u8, it, Some(i as u8));
        y_r[i] = sample_short_mask(&mut xof);
        i += 1;
    }
    assert(polys_view(y_r@) =~= attempt_y_r(pres@, it as int));
    let mut xof_s = mask_stream(pres, 115u8, it, None);
    let y_s = sample_short_mask(&mut xof_s);
    let mut xof_e = mask_stream(pres, 101u8, it, None);
    let y_e = sample_short_mask(&mut xof_e);
    let mut y_m = [Polynomial::zero(); CRED_SLOTS];
    y_m[IDENTITY_SLOT] = y_s;
    let mut slot: usize = 1;
    while slot < CRED_SLOTS
        invariant
            1 <= slot <= CRED_SLOTS,
            poly_ints(y_s) == attempt_y_s(pres@, it as int),
            y_m@[0] == y_s,
            forall|j: int| 1 <= j < slot ==> #[trigger] poly_ints(y_m@[j]) == attempt_y_m(pres@, it as int)[j],
        decreases CRED_SLOTS - slot,
    {
        let mut xof = mask_stream(pres, 109u8, it, Some(slot as u8));
        y_m[slot] = sample_uniform(&mut xof);
        slot += 1;
    }
    assert(polys_view(y_m@) =~= attempt_y_m(pres@, it as int));
    (y_r, y_s, y_e, y_m)
}

/// `y + c·x`, centred.
pub(crate) fn respond(y: &Polynomial, c: &Polynomial, x: &Polynomial) -> (r: Polynomial)
    ensures
        poly_ints(r) == cadd(poly_ints(*y), cmul(poly_ints(*c), poly_ints(*x))),
        abs_fits(r),
{
    let cx = poly_mul_negacyclic(c, x);
    let r = poly_add(y, &cx);
    proof {
        assert forall|i: int| 0 <= i < 256 implies #[trigger] r.coeffs@[i] != i32::MIN by {
            crate::saap::lemma_centered_range(y.coeffs@[i] + cx.coeffs@[i]);
        }
    }
    r
}

/// Wipe a polynomial's coefficients.
pub(crate) fn wipe_poly(p: &mut Polynomial)
    ensures
        poly_ints(*final(p)) == zero_poly(),
{
    crate::xof::wipe_i32s(&mut p.coeffs);
    proof {
        assert(poly_ints(*p) =~= zero_poly());
    }
}

/// Produce a SAAP presentation.
///
/// `projection_randomness` is the `rho` that produced the projection, needed
/// to re-derive `e_τ` as a witness; `tau` is the context as given.
/// `presentation_randomness` seeds the masks, must be fresh per presentation,
/// and at least 32 bytes (else `InvalidInputLength`). Attempts
/// `0..MAX_REJECTION_ITERATIONS` are tried in order and the first that passes
/// rejection sampling is returned; if none does, `RejectionSamplingFailed`.
#[verifier::rlimit(40)]
pub fn prove(
    params: &IssuerParams,
    blinded: &BlindedCredential,
    identity: &MasterIdentity,
    projection: &EphemeralProjection,
    tau: &[u8],
    projection_randomness: &[u8],
    disclosed: u8,
    presentation_randomness: &[u8],
) -> (r: Result<SaapPresentation, IdentityError>)
    ensures
        ({
            let inp = proof_inputs(
                *params,
                *blinded,
                *identity,
                *projection,
                tau@,
                projection_randomness@,
                disclosed,
                presentation_randomness@,
            );
            if presentation_randomness@.len() < 32 {
                r == Err::<SaapPresentation, IdentityError>(IdentityError::InvalidInputLength)
            } else {
                match first_ok(inp, 32) {
                    Some(it) => r matches Ok(p) && is_attempt(p, inp, projection.tau@, it),
                    None => r == Err::<SaapPresentation, IdentityError>(IdentityError::RejectionSamplingFailed),
                }
            }
        }),
{
    let ghost inp = proof_inputs(
        *params,
        *blinded,
        *identity,
        *projection,
        tau@,
        projection_randomness@,
        disclosed,
        presentation_randomness@,
    );
    if presentation_randomness.len() < 32 {
        return Err(IdentityError::InvalidInputLength);
    }
    let a_tau = from_plp(&projection.matrix_a);
    let b_tau = from_plp(&projection.public_b);
    let s = from_plp(identity.secret());
    let mut e_tau_plp = plp::derive_error_tau(projection_randomness, tau);
    let e_tau = from_plp(&e_tau_plp);
    e_tau_plp.wipe();

    let (m_pub, m_hidden) = split_messages(&blinded.m, disclosed);
    let mut disclosed_values = [0u64; CRED_ATTRIBUTES];
    let mut i: usize = 0;
    while i < CRED_ATTRIBUTES
        invariant
            i <= CRED_ATTRIBUTES,
            forall|j: int| 0 <= j < i ==> #[trigger] disclosed_values@[j] == inp.dvals[j],
            forall|j: int| i <= j < 8 ==> #[trigger] disclosed_values@[j] == 0,
            polys_view(m_pub@) == public_messages(blinded.messages_view(), disclosed),
            inp.dvals == disclosed_values_of(public_messages(blinded.messages_view(), disclosed), disclosed),
        decreases CRED_ATTRIBUTES - i,
    {
        if is_disclosed(disclosed, i) {
            let c: i32 = m_pub[i + 1].coeffs[0];
            disclosed_values[i] = if c < 0 {
                (c as i64 + PARAM_Q as i64) as u64
            } else {
                c as u64
            };
            assert(poly_ints(m_pub@[i + 1])[0] == m_pub@[i + 1].coeffs@[0]);
        }
        i += 1;
    }
    assert(disclosed_values@ =~= inp.dvals);

    let mut iteration: usize = 0;
    while iteration < MAX_REJECTION_ITERATIONS
        invariant
            iteration <= MAX_REJECTION_ITERATIONS,
            presentation_randomness@.len() >= 32,
            inp == proof_inputs(
                *params,
                *blinded,
                *identity,
                *projection,
                tau@,
                projection_randomness@,
                disclosed,
                presentation_randomness@,
            ),
            poly_ints(a_tau) == inp.a,
            poly_ints(b_tau) == inp.b,
            poly_ints(s) == inp.s,
            poly_ints(e_tau) == inp.e,
            polys_view(m_hidden@) == inp.hidden,
            disclosed_values@ == inp.dvals,
            first_ok(inp, iteration as nat) is None,
        decreases MAX_REJECTION_ITERATIONS - iteration,
    {
        let it = iteration as u8;
        let (mut y_r, mut y_s, mut y_e, y_m) = attempt_masks(presentation_randomness, it);

        // W_1 = B_1·y_r + (0^L ‖ y_m)
        let mut w1 = params.mul(&y_r);
        let ghost by = polys_view(w1@);
        let mut slot: usize = 0;
        while slot < CRED_SLOTS
            invariant
                slot <= CRED_SLOTS,
                by.len() == 13,
                forall|j: int| 0 <= j < 4 + slot ==> #[trigger] poly_ints(w1@[j]) == add_slots(by, polys_view(y_m@))[j],
                forall|j: int| 4 + slot <= j < 13 ==> #[trigger] poly_ints(w1@[j]) == by[j],
            decreases CRED_SLOTS - slot,
        {
            w1[CRED_L + slot] = poly_add(&w1[CRED_L + slot], &y_m[slot]);
            slot += 1;
        }
        assert(polys_view(w1@) =~= attempt_w1(inp, iteration as int));

        // W_2 = A_τ·y_s + y_e
        let ay = poly_mul_negacyclic(&a_tau, &y_s);
        let w2 = poly_add(&ay, &y_e);

        let c = derive_challenge(&w1, &w2, &b_tau, &blinded.t_blind, disclosed, &disclosed_values, tau);
        assert(poly_ints(c) == attempt_challenge(inp, iteration as int));

        let mut z_r = [Polynomial::zero(); CRED_L];
        let mut j: usize = 0;
        while j < CRED_L
            invariant
                j <= CRED_L,
                polys_view(y_r@) == attempt_y_r(inp.pres, iteration as int),
                poly_ints(c) == attempt_challenge(inp, iteration as int),
                inp.r_star == polys_view(blinded.r_star@),
                forall|k: int| 0 <= k < j ==> #[trigger] poly_ints(z_r@[k]) == attempt_z_r(inp, iteration as int)[k],
                forall|k: int| 0 <= k < j ==> #[trigger] abs_fits(z_r@[k]),
            decreases CRED_L - j,
        {
            z_r[j] = respond(&y_r[j], &c, &blinded.r_star[j]);
            j += 1;
        }
        let mut z_m = [Polynomial::zero(); CRED_SLOTS];
        let mut slot: usize = 0;
        while slot < CRED_SLOTS
            invariant
                slot <= CRED_SLOTS,
                polys_view(y_m@) == attempt_y_m(inp.pres, iteration as int),
                poly_ints(c) == attempt_challenge(inp, iteration as int),
                polys_view(m_hidden@) == inp.hidden,
                forall|k: int| 0 <= k < slot ==> #[trigger] poly_ints(z_m@[k]) == attempt_z_m(inp, iteration as int)[k],
            decreases CRED_SLOTS - slot,
        {
            z_m[slot] = respond(&y_m[slot], &c, &m_hidden[slot]);
            slot += 1;
        }
        let z_s = respond(&y_s, &c, &s);
        let z_e = respond(&y_e, &c, &e_tau);
        assert(polys_view(z_r@) =~= attempt_z_r(inp, iteration as int));
        assert(polys_view(z_m@) =~= attempt_z_m(inp, iteration as int));

        wipe_poly(&mut y_r[0]);
        wipe_poly(&mut y_r[1]);
        wipe_poly(&mut y_r[2]);
        wipe_poly(&mut y_r[3]);
        wipe_poly(&mut y_s);
        wipe_poly(&mut y_e);

        let presentation = SaapPresentation {
            tau: projection.tau,
            disclosed,
            disclosed_values,
            challenge: c,
            z_r,
            z_m,
            z_s,
            z_e,
        };
        assert(is_attempt(presentation, inp, projection.tau@, iteration as int));
        if short_responses_within_bound(&presentation) {
            proof {
                assert(first_ok(inp, (iteration + 1) as nat) == Some(iteration as int));
                lemma_first_ok_stable(inp, (iteration + 1) as nat, 32);
            }
            return Ok(presentation);
        }
        let SaapPresentation { mut z_r, mut z_m, .. } = presentation;
        let mut k: usize = 0;
        while k < CRED_L
            decreases CRED_L - k,
        {
            wipe_poly(&mut z_r[k]);
            k += 1;
        }
        let mut k: usize = 0;
        while k < CRED_SLOTS
            decreases CRED_SLOTS - k,
        {
            wipe_poly(&mut z_m[k]);
            k += 1;
        }
        iteration += 1;
    }
    Err(IdentityError::RejectionSamplingFailed)
}

/// Once an attempt is accepted, later bounds find the same one.
pub proof fn lemma_first_ok_stable(inp: ProofInputs, n1: nat, n2: nat)
    requires
        n1 <= n2,
        first_ok(inp, n1) is Some,
    ensures
        first_ok(inp, n2) == first_ok(inp, n1),
    decreases n2 - n1,
{
    if n2 > n1 {
        lemma_first_ok_stable(inp, n1, (n2 - 1) as nat);
    }
}

// ── Flat and byte forms ──────────────────────────────────────────────────────

/// The coefficients of each polynomial, concatenated.
pub open spec fn flat_coeffs(ps: Seq<Polynomial>) -> Seq<i32>
    decreases ps.len(),
{
    if ps.len() == 0 {
        seq![]
    } else {
        flat_coeffs(ps.drop_last()) + ps.last().coeffs@
    }
}

/// Flatten polynomials into one coefficient list.
///
/// The dimensions are fixed by the parameter set, so a flat list cannot be
/// ragged.
pub fn flatten(polys: &[Polynomial]) -> (out: Vec<i32>)
    ensures
        out@ == flat_coeffs(polys@),
{
    let mut out: Vec<i32> = Vec::new();
    let mut k: usize = 0;
    while k < polys.len()
        invariant
            k <= polys@.len(),
            out@ == flat_coeffs(polys@.subrange(0, k as int)),
        decreases polys@.len() - k,
    {
        let ghost start = out@;
        let p = &polys[k];
        let mut i: usize = 0;
        while i < RING_N
            invariant
                i <= RING_N,
                *p == polys@[k as int],
                out@ == start + p.coeffs@.subrange(0, i as int),
            decreases RING_N - i,
        {
            out.push(p.coeffs[i]);
            i += 1;
            assert(out@ =~= start + p.coeffs@.subrange(0, i as int));
        }
        proof {
            let s = polys@.subrange(0, k + 1);
            assert(s.drop_last() =~= polys@.subrange(0, k as int));
            assert(p.coeffs@.subrange(0, 256) =~= p.coeffs@);
            assert(out@ =~= flat_coeffs(s));
        }
        k += 1;
    }
    assert(polys@.subrange(0, polys@.len() as int) =~= polys@);
    out
}

proof fn lemma_flat_len(ps: Seq<Polynomial>)
    ensures
        flat_coeffs(ps).len() == ps.len() * 256,
    decreases ps.len(),
{
    if ps.len() > 0 {
        lemma_flat_len(ps.drop_last());
    }
}

/// Rebuild exactly `K` polynomials from a flat coefficient list.
///
/// A wrong length is `InvalidInputLength`, never a truncation or zero-fill.
pub fn unflatten<const K: usize>(flat: &[i32]) -> (r: Result<[Polynomial; K], IdentityError>)
    requires
        K * 256 <= usize::MAX,
    ensures
        r is Ok <==> flat@.len() == K * 256,
        r matches Err(e) ==> e == IdentityError::InvalidInputLength,
        r matches Ok(ps) ==> flat_coeffs(ps@) == flat@,
{
    if flat.len() != K * RING_N {
        return Err(IdentityError::InvalidInputLength);
    }
    let mut out = [Polynomial::zero(); K];
    let mut k: usize = 0;
    while k < K
        invariant
            k <= K,
            K * 256 <= usize::MAX,
            flat@.len() == K * 256,
            forall|j: int, i: int| 0 <= j < k && 0 <= i < 256 ==> #[trigger] out@[j].coeffs@[i] == flat@[j * 256 + i],
        decreases K - k,
    {
        let mut p = Polynomial::zero();
        let base = k * RING_N;
        assert(base + 256 <= K * 256) by (nonlinear_arith)
            requires
                k < K,
                base == k * 256,
        ;
        let mut i: usize = 0;
        while i < RING_N
            invariant
                i <= RING_N,
                base + 256 <= flat@.len(),
                flat@.len() == K * 256,
                K * 256 <= usize::MAX,
                forall|t: int| 0 <= t < i ==> #[trigger] p.coeffs@[t] == flat@[base + t],
            decreases RING_N - i,
        {
            p.coeffs[i] = flat[base + i];
            i += 1;
        }
        out[k] = p;
        k += 1;
    }
    proof {
        lemma_unflatten_matches(out@, flat@, K as nat);
        assert(out@.subrange(0, K as int) =~= out@);
        assert(flat@.subrange(0, (K * 256) as int) =~= flat@);
    }
    Ok(out)
}

proof fn lemma_unflatten_matches(ps: Seq<Polynomial>, flat: Seq<i32>, k: nat)
    requires
        k <= ps.len(),
        flat.len() >= k * 256,
        forall|j: int, i: int| 0 <= j < k && 0 <= i < 256 ==> #[trigger] ps[j].coeffs@[i] == flat[j * 256 + i],
    ensures
        flat_coeffs(ps.subrange(0, k as int)) == flat.subrange(0, (k * 256) as int),
    decreases k,
{
    if k > 0 {
        let km = (k - 1) as nat;
        lemma_unflatten_matches(ps, flat, km);
        let s = ps.subrange(0, k as int);
        assert(s.drop_last() =~= ps.subrange(0, km as int));
        assert(km * 256 + 256 == k * 256) by (nonlinear_arith)
            requires
                km + 1 == k,
        ;
        assert forall|i: int| 0 <= i < 256 implies #[trigger] ps[km as int].coeffs@[i] == flat[km * 256 + i] by {}
        assert(flat.subrange(0, (k * 256) as int) =~= flat.subrange(0, (km * 256) as int) + ps[km as int].coeffs@);
    }
    if k == ps.len() {
        assert(ps.subrange(0, k as int) =~= ps);
    }
}

/// The blinded commitment, flat.
pub fn commitment_flat(blinded: &BlindedCredential) -> (out: Vec<i32>)
    ensures
        out@ == flat_coeffs(blinded.commitment_polys()),
{
    flatten(blinded.commitment())
}

/// The wire form of a presentation: `tau ++ disclosed ++ disclosed_values`
/// (LE) then the challenge, `z_r`, `z_m`, `z_s`, `z_e` coefficients (LE).
pub open spec fn presentation_wire(p: SaapPresentation) -> Seq<u8> {
    p.tau@ + seq![p.disclosed] + u64s_bytes(p.disclosed_values@) + coeff_bytes(poly_ints(p.challenge)) + vec_bytes(
        polys_view(p.z_r@),
    ) + vec_bytes(polys_view(p.z_m@)) + coeff_bytes(poly_ints(p.z_s)) + coeff_bytes(poly_ints(p.z_e))
}

/// Serialise a presentation.
pub fn presentation_bytes(p: &SaapPresentation) -> (out: Vec<u8>)
    ensures
        out@ == presentation_wire(*p),
{
    let mut out: Vec<u8> = Vec::new();
    push_bytes(&mut out, &p.tau);
    out.push(p.disclosed);
    push_u64s_bytes(&mut out, &p.disclosed_values);
    push_coeff_bytes(&mut out, &p.challenge);
    push_vec_bytes(&mut out, &p.z_r);
    push_vec_bytes(&mut out, &p.z_m);
    push_coeff_bytes(&mut out, &p.z_s);
    push_coeff_bytes(&mut out, &p.z_e);
    assert(out@ =~= presentation_wire(*p));
    out
}


// ── Completeness ─────────────────────────────────────────────────────────────

/// Four polynomials of 256 coefficients.
pub open spec fn vec_shape(v: Seq<Seq<int>>) -> bool {
    &&& v.len() == 4
    &&& forall|j: int| 0 <= j < 4 ==> #[trigger] v[j].len() == 256
}

/// A `T×L` matrix of polynomials of 256 coefficients.
pub open spec fn matrix_shape(m: Seq<Seq<Seq<int>>>) -> bool {
    &&& m.len() == 13
    &&& forall|r: int| 0 <= r < 13 ==> #[trigger] vec_shape(m[r])
}

/// `Σ_{j<n} row[j]·v[j]` over the integers, unreduced.
pub open spec fn int_dot(row: Seq<Seq<int>>, v: Seq<Seq<int>>, n: nat) -> Seq<int>
    decreases n,
{
    if n == 0 {
        zero_poly()
    } else {
        seq_add(int_dot(row, v, (n - 1) as nat), pmul_seq(row[n - 1], v[n - 1]))
    }
}

/// Entry-wise sum of two vectors, unreduced.
pub open spec fn int_vec_add(u: Seq<Seq<int>>, w: Seq<Seq<int>>) -> Seq<Seq<int>> {
    Seq::new(4, |j: int| seq_add(u[j], w[j]))
}

/// `c·v` entry-wise, unreduced.
pub open spec fn int_vec_scale(c: Seq<int>, v: Seq<Seq<int>>) -> Seq<Seq<int>> {
    Seq::new(4, |j: int| pmul_seq(c, v[j]))
}

proof fn lemma_dot_len(row: Seq<Seq<int>>, v: Seq<Seq<int>>, n: nat)
    ensures
        dot(row, v, n).len() == 256,
{
}

/// The centred dot product is congruent to the integer one, on congruent
/// vectors.
proof fn lemma_dot_cong(row: Seq<Seq<int>>, v: Seq<Seq<int>>, v2: Seq<Seq<int>>, n: nat)
    requires
        n <= 4,
        vec_shape(row),
        vec_shape(v),
        v2.len() == 4,
        forall|j: int| 0 <= j < 4 ==> #[trigger] congruent_seqs(v[j], v2[j]),
    ensures
        congruent_seqs(dot(row, v, n), int_dot(row, v2, n)),
    decreases n,
{
    if n == 0 {
        lemma_cong_refl(zero_poly());
    } else {
        let n1 = (n - 1) as nat;
        let j = n1 as int;
        lemma_dot_cong(row, v, v2, n1);
        lemma_dot_len(row, v, n1);
        assert(vec_shape(row));
        assert(row[j].len() == 256);
        assert(v[j].len() == 256);
        assert(congruent_seqs(v[j], v2[j]));
        lemma_cmul_facts(row[j], v[j]);
        lemma_cong_refl(row[j]);
        lemma_pmul_seq_cong(row[j], row[j], v[j], v2[j]);
        lemma_cong_trans(cmul(row[j], v[j]), pmul_seq(row[j], v[j]), pmul_seq(row[j], v2[j]));
        lemma_cadd_facts(dot(row, v, n1), cmul(row[j], v[j]));
        lemma_seq_add_cong(dot(row, v, n1), int_dot(row, v2, n1), cmul(row[j], v[j]), pmul_seq(row[j], v2[j]));
        lemma_cong_trans(
            dot(row, v, n),
            seq_add(dot(row, v, n1), cmul(row[j], v[j])),
            seq_add(int_dot(row, v2, n1), pmul_seq(row[j], v2[j])),
        );
    }
}

/// The integer dot product is additive in the vector.
proof fn lemma_int_dot_add(row: Seq<Seq<int>>, u: Seq<Seq<int>>, w: Seq<Seq<int>>, n: nat)
    requires
        n <= 4,
    ensures
        int_dot(row, int_vec_add(u, w), n) == seq_add(int_dot(row, u, n), int_dot(row, w, n)),
    decreases n,
{
    if n == 0 {
        assert(seq_add(zero_poly(), zero_poly()) =~= zero_poly());
    } else {
        let n1 = (n - 1) as nat;
        let j = n1 as int;
        lemma_int_dot_add(row, u, w, n1);
        lemma_pmul_seq_add(row[j], u[j], w[j]);
        assert(int_vec_add(u, w)[j] == seq_add(u[j], w[j]));
        let a = int_dot(row, u, n1);
        let b = int_dot(row, w, n1);
        let x = pmul_seq(row[j], u[j]);
        let y = pmul_seq(row[j], w[j]);
        assert(seq_add(seq_add(a, b), seq_add(x, y)) =~= seq_add(seq_add(a, x), seq_add(b, y)));
    }
}

/// `c·0 = 0`.
proof fn lemma_pmul_seq_zero(c: Seq<int>)
    ensures
        pmul_seq(c, zero_poly()) == zero_poly(),
{
    assert forall|k: int| 0 <= k < 256 implies #[trigger] pmul_seq(c, zero_poly())[k] == 0 by {
        assert forall|i: int| 0 <= i < 256 implies #[trigger] crate::ring::pmul_term(c, zero_poly(), k)(i) == 0 by {
            let m = k - i;
            assert(0 <= m % 256 < 256);
            assert(crate::ring::ext(zero_poly(), m) == 0);
        }
        crate::ring::lemma_sum_zero(crate::ring::pmul_term(c, zero_poly(), k), 0, 256);
    }
    assert(pmul_seq(c, zero_poly()) =~= zero_poly());
}

/// Scaling the vector scales the integer dot product.
proof fn lemma_int_dot_scale(row: Seq<Seq<int>>, c: Seq<int>, v: Seq<Seq<int>>, n: nat)
    requires
        n <= 4,
    ensures
        int_dot(row, int_vec_scale(c, v), n) == pmul_seq(c, int_dot(row, v, n)),
    decreases n,
{
    if n == 0 {
        lemma_pmul_seq_zero(c);
    } else {
        let n1 = (n - 1) as nat;
        let j = n1 as int;
        lemma_int_dot_scale(row, c, v, n1);
        assert(int_vec_scale(c, v)[j] == pmul_seq(c, v[j]));
        lemma_pmul_seq_left_comm(row[j], c, v[j]);
        lemma_pmul_seq_add(c, int_dot(row, v, n1), pmul_seq(row[j], v[j]));
    }
}

/// `(a + b) − b = a`.
proof fn lemma_add_sub_cancel(a: Seq<int>, b: Seq<int>)
    requires
        a.len() == 256,
    ensures
        seq_sub(seq_add(a, b), b) == a,
{
    assert(seq_sub(seq_add(a, b), b) =~= a);
}

/// `z_r ≡ y_r + c·(r + r_b)` entry-wise.
proof fn lemma_z_r_cong(y_r: Seq<Seq<int>>, c: Seq<int>, r: Seq<Seq<int>>, rb: Seq<Seq<int>>, r_star: Seq<Seq<int>>, z_r: Seq<Seq<int>>)
    requires
        vec_shape(y_r),
        vec_shape(r),
        vec_shape(rb),
        c.len() == 256,
        r_star == add_vecs(r, rb),
        z_r == Seq::new(4, |i: int| cadd(y_r[i], cmul(c, r_star[i]))),
    ensures
        vec_shape(r_star),
        vec_shape(z_r),
        forall|j: int| 0 <= j < 4 ==> #[trigger] congruent_seqs(r_star[j], int_vec_add(r, rb)[j]),
        forall|j: int| 0 <= j < 4 ==> #[trigger] congruent_seqs(
            z_r[j],
            int_vec_add(y_r, int_vec_scale(c, int_vec_add(r, rb)))[j],
        ),
{
    let rs = int_vec_add(r, rb);
    assert forall|j: int| 0 <= j < 4 implies #[trigger] congruent_seqs(r_star[j], rs[j]) by {
        lemma_cadd_facts(r[j], rb[j]);
    }
    assert forall|j: int| 0 <= j < 4 implies #[trigger] congruent_seqs(
        z_r[j],
        int_vec_add(y_r, int_vec_scale(c, rs))[j],
    ) by {
        assert(congruent_seqs(r_star[j], rs[j]));
        lemma_cadd_facts(r[j], rb[j]);
        lemma_cmul_facts(c, r_star[j]);
        lemma_cong_refl(c);
        lemma_pmul_seq_cong(c, c, r_star[j], rs[j]);
        lemma_cong_trans(cmul(c, r_star[j]), pmul_seq(c, r_star[j]), pmul_seq(c, rs[j]));
        lemma_cadd_facts(y_r[j], cmul(c, r_star[j]));
        lemma_cong_refl(y_r[j]);
        lemma_seq_add_cong(y_r[j], y_r[j], cmul(c, r_star[j]), pmul_seq(c, rs[j]));
        lemma_cong_trans(z_r[j], seq_add(y_r[j], cmul(c, r_star[j])), seq_add(y_r[j], pmul_seq(c, rs[j])));
    }
    assert forall|j: int| 0 <= j < 4 implies #[trigger] z_r[j].len() == 256 by {}
    assert forall|j: int| 0 <= j < 4 implies #[trigger] r_star[j].len() == 256 by {}
}


/// A centred dot product is a centred sequence.
proof fn lemma_dot_centred(row: Seq<Seq<int>>, v: Seq<Seq<int>>, n: nat)
    ensures
        centred_seq(dot(row, v, n)),
{
    if n == 0 {
        assert(centred_seq(zero_poly()));
    } else {
        lemma_cadd_facts(dot(row, v, (n - 1) as nat), cmul(row[n - 1], v[n - 1]));
    }
}

/// Row `row` of the verifier's recomputed membership commitment equals row
/// `row` of the prover's `W_1`, for an honest transcript over
/// `t_blind = B·r + (0 ‖ m) + B·r_b`.
proof fn lemma_membership_row(
    m: Seq<Seq<Seq<int>>>,
    c: Seq<int>,
    y_r: Seq<Seq<int>>,
    y_m: Seq<Seq<int>>,
    r: Seq<Seq<int>>,
    rb: Seq<Seq<int>>,
    msgs: Seq<Seq<int>>,
    pubm: Seq<Seq<int>>,
    hidden: Seq<Seq<int>>,
    z_r: Seq<Seq<int>>,
    z_m: Seq<Seq<int>>,
    row: int,
)
    requires
        0 <= row < 13,
        matrix_shape(m),
        vec_shape(y_r),
        vec_shape(r),
        vec_shape(rb),
        c.len() == 256,
        y_m.len() == 9,
        msgs.len() == 9,
        pubm.len() == 9,
        hidden.len() == 9,
        forall|slot: int| 0 <= slot < 9 ==> #[trigger] y_m[slot].len() == 256,
        forall|slot: int| 0 <= slot < 9 ==> #[trigger] msgs[slot].len() == 256,
        forall|slot: int| 0 <= slot < 9 ==> #[trigger] hidden[slot].len() == 256,
        forall|slot: int| 0 <= slot < 9 ==> #[trigger] pubm[slot].len() == 256,
        forall|slot: int, i: int| 0 <= slot < 9 && 0 <= i < 256 ==> #[trigger] msgs[slot][i] == pubm[slot][i] + hidden[slot][i],
        z_r == Seq::new(4, |i: int| cadd(y_r[i], cmul(c, add_vecs(r, rb)[i]))),
        z_m == Seq::new(9, |slot: int| cadd(y_m[slot], cmul(c, hidden[slot]))),
    ensures
        membership_commitment(m, c, z_r, z_m, add_vecs(add_slots(mat_vec(m, r), msgs), mat_vec(m, rb)), pubm)[row]
            == add_slots(mat_vec(m, y_r), y_m)[row],
{
    let mr = m[row];
    assert(vec_shape(mr));
    let r_star = add_vecs(r, rb);
    let rs = int_vec_add(r, rb);
    lemma_z_r_cong(y_r, c, r, rb, r_star, z_r);
    let zr_int = int_vec_add(y_r, int_vec_scale(c, rs));
    assert(zr_int.len() == 4);
    // B·z_r ≡ B·y_r + c·(B·r*)
    lemma_dot_cong(mr, z_r, zr_int, 4);
    lemma_int_dot_add(mr, y_r, int_vec_scale(c, rs), 4);
    lemma_int_dot_scale(mr, c, rs, 4);
    let dy = int_dot(mr, y_r, 4);
    let tt = int_dot(mr, rs, 4);
    let bz = dot(mr, z_r, 4);
    assert(congruent_seqs(bz, seq_add(dy, pmul_seq(c, tt))));
    // B·r + B·r_b ≡ B·r*
    assert forall|j: int| 0 <= j < 4 implies #[trigger] congruent_seqs(r[j], r[j]) by {
        lemma_cong_refl(r[j]);
    }
    assert forall|j: int| 0 <= j < 4 implies #[trigger] congruent_seqs(rb[j], rb[j]) by {
        lemma_cong_refl(rb[j]);
    }
    assert forall|j: int| 0 <= j < 4 implies #[trigger] congruent_seqs(y_r[j], y_r[j]) by {
        lemma_cong_refl(y_r[j]);
    }
    lemma_dot_cong(mr, r, r, 4);
    lemma_dot_cong(mr, rb, rb, 4);
    lemma_dot_cong(mr, y_r, y_r, 4);
    lemma_int_dot_add(mr, r, rb, 4);
    let br = dot(mr, r, 4);
    let brb = dot(mr, rb, 4);
    let ir = int_dot(mr, r, 4);
    let irb = int_dot(mr, rb, 4);
    assert(tt == seq_add(ir, irb));
    lemma_dot_len(mr, r, 4);
    lemma_dot_len(mr, rb, 4);
    lemma_dot_len(mr, y_r, 4);
    lemma_dot_len(mr, z_r, 4);
    lemma_dot_centred(mr, y_r, 4);
    let t_blind = add_vecs(add_slots(mat_vec(m, r), msgs), mat_vec(m, rb));
    let w1 = membership_commitment(m, c, z_r, z_m, t_blind, pubm);
    let target = add_slots(mat_vec(m, y_r), y_m);
    lemma_cong_refl(c);
    if row < 4 {
        // t_blind[row] ≡ B·r*
        assert(t_blind[row] == cadd(br, brb));
        lemma_cadd_facts(br, brb);
        lemma_seq_add_cong(br, ir, brb, irb);
        lemma_cong_trans(t_blind[row], seq_add(br, brb), tt);
        lemma_cmul_facts(c, t_blind[row]);
        lemma_pmul_seq_cong(c, c, t_blind[row], tt);
        lemma_cong_trans(cmul(c, t_blind[row]), pmul_seq(c, t_blind[row]), pmul_seq(c, tt));
        // W_1'[row] ≡ (B·y_r + c·T) − c·T = B·y_r
        assert(w1[row] == csub(bz, cmul(c, t_blind[row])));
        lemma_csub_facts(bz, cmul(c, t_blind[row]));
        lemma_seq_sub_cong(bz, seq_add(dy, pmul_seq(c, tt)), cmul(c, t_blind[row]), pmul_seq(c, tt));
        lemma_add_sub_cancel(dy, pmul_seq(c, tt));
        lemma_cong_trans(w1[row], seq_sub(bz, cmul(c, t_blind[row])), dy);
        lemma_cong_sym(dot(mr, y_r, 4), dy);
        lemma_cong_trans(w1[row], dy, dot(mr, y_r, 4));
        assert(target[row] == dot(mr, y_r, 4));
        lemma_centred_cong_eq(w1[row], target[row]);
    } else {
        let slot = row - 4;
        let h = hidden[slot];
        let ym = y_m[slot];
        let ms = msgs[slot];
        let pm = pubm[slot];
        // z_m[slot] ≡ y_m + c·h
        assert(z_m[slot] == cadd(ym, cmul(c, h)));
        lemma_cmul_facts(c, h);
        lemma_cadd_facts(ym, cmul(c, h));
        lemma_cong_refl(ym);
        lemma_seq_add_cong(ym, ym, cmul(c, h), pmul_seq(c, h));
        lemma_cong_trans(z_m[slot], seq_add(ym, cmul(c, h)), seq_add(ym, pmul_seq(c, h)));
        // base ≡ (B·y_r + c·T) + (y_m + c·h)
        let base = cadd(bz, z_m[slot]);
        lemma_cadd_facts(bz, z_m[slot]);
        lemma_seq_add_cong(bz, seq_add(dy, pmul_seq(c, tt)), z_m[slot], seq_add(ym, pmul_seq(c, h)));
        let base_int = seq_add(seq_add(dy, pmul_seq(c, tt)), seq_add(ym, pmul_seq(c, h)));
        lemma_cong_trans(base, seq_add(bz, z_m[slot]), base_int);
        // t_blind[row] − m_pub ≡ T + h
        let trow = cadd(br, ms);
        assert(t_blind[row] == cadd(trow, brb));
        lemma_cadd_facts(br, ms);
        lemma_cong_refl(ms);
        lemma_seq_add_cong(br, ir, ms, ms);
        lemma_cong_trans(trow, seq_add(br, ms), seq_add(ir, ms));
        lemma_cadd_facts(trow, brb);
        lemma_seq_add_cong(trow, seq_add(ir, ms), brb, irb);
        lemma_cong_trans(t_blind[row], seq_add(trow, brb), seq_add(seq_add(ir, ms), irb));
        let diff = csub(t_blind[row], pm);
        lemma_csub_facts(t_blind[row], pm);
        lemma_cong_refl(pm);
        lemma_seq_sub_cong(t_blind[row], seq_add(seq_add(ir, ms), irb), pm, pm);
        assert(seq_sub(seq_add(seq_add(ir, ms), irb), pm) =~= seq_add(tt, h)) by {
            assert forall|i: int| 0 <= i < 256 implies ms[i] == pm[i] + h[i] by {}
        }
        lemma_cong_trans(diff, seq_sub(t_blind[row], pm), seq_add(tt, h));
        // c·(T + h) = c·T + c·h
        lemma_cmul_facts(c, diff);
        lemma_pmul_seq_cong(c, c, diff, seq_add(tt, h));
        lemma_cong_trans(cmul(c, diff), pmul_seq(c, diff), pmul_seq(c, seq_add(tt, h)));
        lemma_pmul_seq_add(c, tt, h);
        // W_1'[row] ≡ B·y_r + y_m
        assert(w1[row] == csub(base, cmul(c, diff)));
        lemma_csub_facts(base, cmul(c, diff));
        lemma_seq_sub_cong(base, base_int, cmul(c, diff), seq_add(pmul_seq(c, tt), pmul_seq(c, h)));
        assert(seq_sub(base_int, seq_add(pmul_seq(c, tt), pmul_seq(c, h))) =~= seq_add(dy, ym));
        lemma_cong_trans(w1[row], seq_sub(base, cmul(c, diff)), seq_add(dy, ym));
        // The target row is B·y_r + y_m, centred.
        assert(target[row] == cadd(dot(mr, y_r, 4), ym));
        lemma_cadd_facts(dot(mr, y_r, 4), ym);
        lemma_seq_add_cong(dot(mr, y_r, 4), dy, ym, ym);
        lemma_cong_trans(target[row], seq_add(dot(mr, y_r, 4), ym), seq_add(dy, ym));
        lemma_cong_sym(target[row], seq_add(dy, ym));
        lemma_cong_trans(w1[row], seq_add(dy, ym), target[row]);
        lemma_centred_cong_eq(w1[row], target[row]);
    }
}


/// `centred_of(x) ≡ x`.
proof fn lemma_centred_of_cong(x: Seq<u32>)
    requires
        x.len() == 256,
    ensures
        congruent_seqs(centred_of(x), crate::ring::u32s_to_ints(x)),
{
    assert forall|i: int| 0 <= i < 256 implies #[trigger] (centred_of(x)[i] % q_int()) == crate::ring::u32s_to_ints(
        x,
    )[i] % q_int() by {
        crate::saap::lemma_centered_congruent(x[i] as int);
    }
}

/// The verifier's recomputed `W_2' = A·z_s + z_e − c·b` is the prover's
/// `W_2 = A·y_s + y_e` when `b = A·s + e`, `z_s = y_s + c·s`, `z_e = y_e + c·e`.
proof fn lemma_identity_commitment(a: Seq<u32>, s: Seq<u32>, e: Seq<u32>, c: Seq<int>, y_s: Seq<int>, y_e: Seq<int>)
    requires
        a.len() == 256,
        s.len() == 256,
        e.len() == 256,
        c.len() == 256,
        y_s.len() == 256,
        y_e.len() == 256,
    ensures
        identity_commitment(
            centred_of(a),
            centred_of(plp::projection_b(a, s, e)),
            c,
            cadd(y_s, cmul(c, centred_of(s))),
            cadd(y_e, cmul(c, centred_of(e))),
        ) == cadd(cmul(centred_of(a), y_s), y_e),
{
    let ac = centred_of(a);
    let sc = centred_of(s);
    let ec = centred_of(e);
    let b = plp::projection_b(a, s, e);
    let bc = centred_of(b);
    let ai = crate::ring::u32s_to_ints(a);
    let si = crate::ring::u32s_to_ints(s);
    let ei = crate::ring::u32s_to_ints(e);
    let bi = crate::ring::u32s_to_ints(b);
    let as_ = pmul_seq(ac, sc);
    // b ≡ A·s + e, in centred terms
    lemma_centred_of_cong(a);
    lemma_centred_of_cong(s);
    lemma_centred_of_cong(e);
    lemma_centred_of_cong(b);
    plp::lemma_mul_add_congruent(a, s, e);
    lemma_cong_sym(ac, ai);
    lemma_cong_sym(sc, si);
    lemma_cong_sym(ec, ei);
    lemma_pmul_seq_cong(ai, ac, si, sc);
    lemma_seq_add_cong(pmul_seq(ai, si), as_, ei, ec);
    lemma_cong_trans(bc, bi, seq_add(pmul_seq(ai, si), ei));
    lemma_cong_trans(bc, seq_add(pmul_seq(ai, si), ei), seq_add(as_, ec));
    lemma_cong_refl(c);
    lemma_cong_refl(ac);
    // z_s ≡ y_s + c·s and z_e ≡ y_e + c·e
    let zs = cadd(y_s, cmul(c, sc));
    let ze = cadd(y_e, cmul(c, ec));
    lemma_cmul_facts(c, sc);
    lemma_cadd_facts(y_s, cmul(c, sc));
    lemma_cong_refl(y_s);
    lemma_seq_add_cong(y_s, y_s, cmul(c, sc), pmul_seq(c, sc));
    lemma_cong_trans(zs, seq_add(y_s, cmul(c, sc)), seq_add(y_s, pmul_seq(c, sc)));
    lemma_cmul_facts(c, ec);
    lemma_cadd_facts(y_e, cmul(c, ec));
    lemma_cong_refl(y_e);
    lemma_seq_add_cong(y_e, y_e, cmul(c, ec), pmul_seq(c, ec));
    lemma_cong_trans(ze, seq_add(y_e, cmul(c, ec)), seq_add(y_e, pmul_seq(c, ec)));
    // A·z_s ≡ A·y_s + c·(A·s)
    lemma_cmul_facts(ac, zs);
    lemma_pmul_seq_cong(ac, ac, zs, seq_add(y_s, pmul_seq(c, sc)));
    lemma_pmul_seq_add(ac, y_s, pmul_seq(c, sc));
    lemma_pmul_seq_left_comm(ac, c, sc);
    let azs = cmul(ac, zs);
    let azs_int = seq_add(pmul_seq(ac, y_s), pmul_seq(c, as_));
    lemma_cong_trans(azs, pmul_seq(ac, zs), azs_int);
    // A·z_s + z_e
    let sum = cadd(azs, ze);
    lemma_cadd_facts(azs, ze);
    lemma_seq_add_cong(azs, azs_int, ze, seq_add(y_e, pmul_seq(c, ec)));
    let sum_int = seq_add(azs_int, seq_add(y_e, pmul_seq(c, ec)));
    lemma_cong_trans(sum, seq_add(azs, ze), sum_int);
    // c·b ≡ c·(A·s) + c·e
    let cb = cmul(c, bc);
    lemma_cmul_facts(c, bc);
    lemma_pmul_seq_cong(c, c, bc, seq_add(as_, ec));
    lemma_pmul_seq_add(c, as_, ec);
    let cb_int = seq_add(pmul_seq(c, as_), pmul_seq(c, ec));
    lemma_cong_trans(cb, pmul_seq(c, bc), cb_int);
    // W_2' ≡ A·y_s + y_e
    let w2 = csub(sum, cb);
    lemma_csub_facts(sum, cb);
    lemma_seq_sub_cong(sum, sum_int, cb, cb_int);
    let goal_int = seq_add(pmul_seq(ac, y_s), y_e);
    assert(seq_sub(sum_int, cb_int) =~= goal_int);
    lemma_cong_trans(w2, seq_sub(sum, cb), goal_int);
    let target = cadd(cmul(ac, y_s), y_e);
    lemma_cmul_facts(ac, y_s);
    lemma_cadd_facts(cmul(ac, y_s), y_e);
    lemma_seq_add_cong(cmul(ac, y_s), pmul_seq(ac, y_s), y_e, y_e);
    lemma_cong_trans(target, seq_add(cmul(ac, y_s), y_e), goal_int);
    lemma_cong_sym(target, goal_int);
    lemma_cong_trans(w2, goal_int, target);
    lemma_centred_cong_eq(w2, target);
}


/// The first accepted attempt passed rejection sampling.
proof fn lemma_first_ok_accepted(inp: ProofInputs, n: nat)
    requires
        first_ok(inp, n) is Some,
    ensures
        attempt_ok(inp, first_ok(inp, n)->0),
    decreases n,
{
    if first_ok(inp, (n - 1) as nat) is Some {
        lemma_first_ok_accepted(inp, (n - 1) as nat);
    }
}

/// The inputs of an honest presentation: a credential issued over secret `s`
/// and attribute values `attrs` under issuer matrix `m` with commitment
/// randomness `r`, blinded with `rb`, presented at `tau` against the
/// projection of `s` made with randomness `rho`.
pub open spec fn honest_inputs(
    m: Seq<Seq<Seq<int>>>,
    s: Seq<u32>,
    attrs: Seq<u64>,
    r: Seq<Seq<int>>,
    rb: Seq<Seq<int>>,
    tau: Seq<u8>,
    rho: Seq<u8>,
    disclosed: u8,
    pres: Seq<u8>,
) -> ProofInputs {
    let msgs = issue_messages(s, attrs);
    let tau32 = plp::pad_tau_spec(tau);
    let salt = plp::projection_salt(rho, tau32);
    let a = plp::context_matrix(tau32, salt);
    proof_inputs_from(
        m,
        add_vecs(add_slots(mat_vec(m, r), msgs), mat_vec(m, rb)),
        add_vecs(r, rb),
        msgs,
        a,
        plp::projection_b(a, s, error_poly(rho, tau)),
        s,
        tau,
        rho,
        disclosed,
        pres,
    )
}

/// Completeness of SAAP presentations.
///
/// A credential issued over the holder's secret `s` ([`Credential::issue`]:
/// `t = B·r + (0 ‖ m)`), blinded with `r_b` ([`BlindedCredential::new`]:
/// `t_blind = t + B·r_b`, `r* = r + r_b`), and presented by [`prove`] at
/// `tau` against the holder's projection made with `rho`
/// ([`MasterIdentity::project_at_context`]), verifies under [`verify`] with the
/// same issuer, commitment, projection and `tau`, whenever [`prove`] returns a
/// presentation, whatever attribute values below `q` the credential holds and
/// whichever of them are disclosed.
pub proof fn lemma_honest_presentation_verifies(
    m: Seq<Seq<Seq<int>>>,
    s: Seq<u32>,
    attrs: Seq<u64>,
    r: Seq<Seq<int>>,
    rb: Seq<Seq<int>>,
    tau: Seq<u8>,
    rho: Seq<u8>,
    disclosed: u8,
    pres: Seq<u8>,
)
    requires
        matrix_shape(m),
        s.len() == 256,
        attrs.len() == 8,
        vec_shape(r),
        vec_shape(rb),
        forall|i: int| 0 <= i < 8 ==> #[trigger] attrs[i] < q_int(),
        first_ok(honest_inputs(m, s, attrs, r, rb, tau, rho, disclosed, pres), 32) is Some,
    ensures
        ({
            let inp = honest_inputs(m, s, attrs, r, rb, tau, rho, disclosed, pres);
            let it = first_ok(inp, 32)->0;
            verify_views(
                m,
                attempt_challenge(inp, it),
                attempt_z_r(inp, it),
                attempt_z_m(inp, it),
                attempt_z_s(inp, it),
                attempt_z_e(inp, it),
                disclosed,
                inp.dvals,
                inp.t_blind,
                inp.a,
                inp.b,
                tau,
            ) == Ok::<bool, IdentityError>(true)
        }),
{
    let inp = honest_inputs(m, s, attrs, r, rb, tau, rho, disclosed, pres);
    lemma_first_ok_accepted(inp, 32);
    let it = first_ok(inp, 32)->0;
    let msgs = issue_messages(s, attrs);
    let c = attempt_challenge(inp, it);
    let z_s = attempt_z_s(inp, it);
    let z_e = attempt_z_e(inp, it);
    let tau32 = plp::pad_tau_spec(tau);
    let salt = plp::projection_salt(rho, tau32);
    let a = plp::context_matrix(tau32, salt);
    let e = error_poly(rho, tau);
    assert(inp.hidden[0] == msgs[0]);
    assert(attempt_z_m(inp, it)[0] == z_s);
    lemma_honest_disclosure(s, attrs, disclosed);
    lemma_honest_membership(m, s, attrs, r, rb, tau, rho, disclosed, pres, it);
    lemma_saap_challenge_len(attempt_w1(inp, it), attempt_w2(inp, it), inp.b, inp.t_blind, disclosed, inp.dvals, tau);
    lemma_identity_commitment(a, s, e, c, attempt_y_s(pres, it), attempt_y_e(pres, it));
    assert(identity_commitment(inp.a, inp.b, c, z_s, z_e) == attempt_w2(inp, it));
}

/// A presentation of an issued credential publishes each disclosed
/// attribute value as it was issued, and zero for every hidden one.
pub proof fn lemma_published_attributes(s: Seq<u32>, attrs: Seq<u64>, disclosed: u8)
    requires
        s.len() == 256,
        attrs.len() == 8,
        forall|i: int| 0 <= i < 8 ==> #[trigger] attrs[i] < q_int(),
    ensures
        disclosed_values_of(public_messages(issue_messages(s, attrs), disclosed), disclosed) == Seq::new(
            8,
            |i: int| if disclosed_bit(disclosed, i) { attrs[i] } else { 0u64 },
        ),
{
    let dvals = disclosed_values_of(public_messages(issue_messages(s, attrs), disclosed), disclosed);
    let want = Seq::new(8, |i: int| if disclosed_bit(disclosed, i) { attrs[i] } else { 0u64 });
    lemma_honest_disclosure(s, attrs, disclosed);
    assert forall|i: int| 0 <= i < 8 implies #[trigger] dvals[i] == want[i] by {
        if disclosed_bit(disclosed, i) {
            assert(decentred(centered(attrs[i] as int)) == attrs[i]);
        }
    }
    assert(dvals =~= want);
}

/// Disclosed values of an honest presentation are published exactly and
/// rebuild its public messages.
proof fn lemma_honest_disclosure(s: Seq<u32>, attrs: Seq<u64>, disclosed: u8)
    requires
        s.len() == 256,
        attrs.len() == 8,
        forall|i: int| 0 <= i < 8 ==> #[trigger] attrs[i] < q_int(),
    ensures
        ({
            let msgs = issue_messages(s, attrs);
            let dvals = disclosed_values_of(public_messages(msgs, disclosed), disclosed);
            &&& disclosed_in_range(disclosed, dvals)
            &&& disclosed_messages(disclosed, dvals) == public_messages(msgs, disclosed)
        }),
{
    let msgs = issue_messages(s, attrs);
    let pubm = public_messages(msgs, disclosed);
    let dvals = disclosed_values_of(pubm, disclosed);
    assert forall|i: int| 0 <= i < 8 && #[trigger] disclosed_bit(disclosed, i) implies dvals[i] == attrs[i] by {
        assert(pubm[i + 1] == msgs[i + 1]);
        assert(msgs[i + 1] == attribute_poly(attrs[i]));
        assert(decentred(centered(attrs[i] as int)) == attrs[i]);
    }
    let m_pub = disclosed_messages(disclosed, dvals);
    assert forall|slot: int| 0 <= slot < 9 implies #[trigger] m_pub[slot] == pubm[slot] by {
        if 1 <= slot && disclosed_bit(disclosed, slot - 1) {
            assert(dvals[slot - 1] == attrs[slot - 1]);
        }
    }
    assert(m_pub =~= pubm);
}

/// The verifier's membership commitment for an honest presentation is the
/// prover's `W_1`.
proof fn lemma_honest_membership(
    m: Seq<Seq<Seq<int>>>,
    s: Seq<u32>,
    attrs: Seq<u64>,
    r: Seq<Seq<int>>,
    rb: Seq<Seq<int>>,
    tau: Seq<u8>,
    rho: Seq<u8>,
    disclosed: u8,
    pres: Seq<u8>,
    it: int,
)
    requires
        matrix_shape(m),
        s.len() == 256,
        attrs.len() == 8,
        vec_shape(r),
        vec_shape(rb),
    ensures
        ({
            let inp = honest_inputs(m, s, attrs, r, rb, tau, rho, disclosed, pres);
            membership_commitment(
                m,
                attempt_challenge(inp, it),
                attempt_z_r(inp, it),
                attempt_z_m(inp, it),
                inp.t_blind,
                public_messages(issue_messages(s, attrs), disclosed),
            ) == attempt_w1(inp, it)
        }),
{
    let inp = honest_inputs(m, s, attrs, r, rb, tau, rho, disclosed, pres);
    let msgs = issue_messages(s, attrs);
    let pubm = public_messages(msgs, disclosed);
    let hidden = hidden_messages(msgs, disclosed);
    let c = attempt_challenge(inp, it);
    let z_r = attempt_z_r(inp, it);
    let z_m = attempt_z_m(inp, it);
    let y_r = attempt_y_r(pres, it);
    let y_m = attempt_y_m(pres, it);
    assert(inp.hidden == hidden);
    assert(inp.r_star == add_vecs(r, rb));
    lemma_saap_challenge_len(attempt_w1(inp, it), attempt_w2(inp, it), inp.b, inp.t_blind, disclosed, inp.dvals, tau);
    assert(c.len() == 256);
    assert(vec_shape(y_r));
    assert forall|slot: int| 0 <= slot < 9 implies #[trigger] y_m[slot].len() == 256 by {}
    assert forall|slot: int| 0 <= slot < 9 implies #[trigger] msgs[slot].len() == 256 by {}
    assert forall|slot: int| 0 <= slot < 9 implies #[trigger] hidden[slot].len() == 256 by {}
    assert forall|slot: int| 0 <= slot < 9 implies #[trigger] pubm[slot].len() == 256 by {}
    assert forall|slot: int, i: int| 0 <= slot < 9 && 0 <= i < 256 implies #[trigger] msgs[slot][i] == pubm[slot][i]
        + hidden[slot][i] by {}
    assert(z_r =~= Seq::new(4, |i: int| cadd(y_r[i], cmul(c, add_vecs(r, rb)[i]))));
    assert(z_m =~= Seq::new(9, |slot: int| cadd(y_m[slot], cmul(c, hidden[slot]))));
    let w1 = membership_commitment(m, c, z_r, z_m, inp.t_blind, pubm);
    assert forall|row: int| 0 <= row < 13 implies #[trigger] w1[row] == attempt_w1(inp, it)[row] by {
        lemma_membership_row(m, c, y_r, y_m, r, rb, msgs, pubm, hidden, z_r, z_m, row);
    }
    assert(w1 =~= attempt_w1(inp, it));
}
} // verus!
