//! The identity component's operations over plain values: an owned identity,
//! an owned credential, and presentation verification from flat coefficient
//! lists.

use vstd::prelude::*;

use crate::credential::{
    add_vecs, attempt_challenge, attempt_z_e, attempt_z_m, attempt_z_r, attempt_z_s, attributes_in_range,
    commitment_flat, first_ok, flat_coeffs, flatten, issue_messages, issuer_matrix, mat_vec, proof_inputs_from,
    polys_view, small_vec, unflatten, verify_views, BlindedCredential, Credential, IssuerParams, SaapPresentation,
    CRED_ATTRIBUTES, CRED_L, CRED_SLOTS, CRED_T, DOMAIN_BLIND, DOMAIN_ISSUE_RANDOMNESS, add_slots,
};
use crate::identity_error::IdentityError;
use crate::plp::{
    attempt_c, attempt_w, attempt_z, context_matrix, error_poly, first_accepted, master_secret, pad_tau,
    pad_tau_spec, projection_b, projection_salt, poly_bounded, verify_spec, EphemeralProjection, Q, MasterIdentity, Poly, Prover,
    Verifier, ZkIdentityProof,
};
use crate::ring::i32s_to_ints;
use crate::saap::{poly_ints, Polynomial};
use crate::signing::{
    keygen_stream, mldsa65_public_key_of, mldsa65_signature_of, mldsa65_verdict, Identity, MLDSA65_PUBLIC_KEY_BYTES,
    MLDSA65_SIGNATURE_BYTES,
};

verus! {

/// The coefficients of each polynomial, as integers, concatenated.
pub open spec fn flat_ints(vs: Seq<Seq<int>>) -> Seq<int>
    decreases vs.len(),
{
    if vs.len() == 0 {
        seq![]
    } else {
        flat_ints(vs.drop_last()) + vs.last()
    }
}

/// `k` polynomials read from a flat coefficient list.
pub open spec fn chunks(flat: Seq<i32>, k: nat) -> Seq<Seq<int>> {
    Seq::new(k, |j: int| Seq::new(256, |i: int| flat[j * 256 + i] as int))
}

proof fn lemma_flat_ints(ps: Seq<Polynomial>)
    ensures
        i32s_to_ints(flat_coeffs(ps)) == flat_ints(polys_view(ps)),
    decreases ps.len(),
{
    if ps.len() > 0 {
        lemma_flat_ints(ps.drop_last());
        assert(polys_view(ps).drop_last() =~= polys_view(ps.drop_last()));
        assert(i32s_to_ints(flat_coeffs(ps)) =~= i32s_to_ints(flat_coeffs(ps.drop_last())) + poly_ints(ps.last()));
    }
}

proof fn lemma_flat_index(ps: Seq<Polynomial>, j: int, i: int)
    requires
        0 <= j < ps.len(),
        0 <= i < 256,
    ensures
        flat_coeffs(ps).len() == ps.len() * 256,
        flat_coeffs(ps)[j * 256 + i] == ps[j].coeffs@[i],
    decreases ps.len(),
{
    let n = ps.len() - 1;
    if j < n {
        lemma_flat_index(ps.drop_last(), j, i);
        assert(j * 256 + i < n * 256) by (nonlinear_arith)
            requires
                j < n,
                i < 256,
        ;
    } else {
        if n > 0 {
            lemma_flat_index(ps.drop_last(), 0, 0);
        } else {
            assert(flat_coeffs(ps.drop_last()) =~= Seq::<i32>::empty());
        }
        assert(flat_coeffs(ps.drop_last()).len() == n * 256);
    }
    if ps.len() == 1 {
        assert(flat_coeffs(ps.drop_last()).len() == 0);
    }
}

/// Polynomials rebuilt from their flat list are its chunks.
proof fn lemma_unflattened_chunks(ps: Seq<Polynomial>, flat: Seq<i32>)
    requires
        flat_coeffs(ps) == flat,
    ensures
        polys_view(ps) == chunks(flat, ps.len()),
{
    assert forall|j: int| 0 <= j < ps.len() implies #[trigger] polys_view(ps)[j] =~= chunks(flat, ps.len())[j] by {
        assert forall|i: int| 0 <= i < 256 implies #[trigger] polys_view(ps)[j][i] == chunks(flat, ps.len())[j][i] by {
            lemma_flat_index(ps, j, i);
        }
    }
    assert(polys_view(ps) =~= chunks(flat, ps.len()));
}

// ── Identity ─────────────────────────────────────────────────────────────────

/// A master identity as the component holds it.
pub struct OwnedIdentity(Identity);

/// A 32-byte secret as a seed; any other length is `InvalidInputLength`.
fn secret_as_seed(secret: &[u8]) -> (r: Result<[u8; 32], IdentityError>)
    ensures
        r is Ok <==> secret@.len() == 32,
        r matches Err(e) ==> e == IdentityError::InvalidInputLength,
        r matches Ok(seed) ==> seed@ == secret@,
{
    if secret.len() != 32 {
        return Err(IdentityError::InvalidInputLength);
    }
    let mut seed = [0u8; 32];
    let mut i: usize = 0;
    while i < 32
        invariant
            i <= 32,
            secret@.len() == 32,
            forall|j: int| 0 <= j < i ==> #[trigger] seed@[j] == secret@[j],
        decreases 32 - i,
    {
        seed[i] = secret[i];
        i += 1;
    }
    assert(seed@ =~= secret@);
    Ok(seed)
}

/// Project a 32-byte secret at context `tau` with randomness of at least 32
/// bytes; any other secret length, or shorter randomness, is
/// `InvalidInputLength`.
pub fn plp_project_at_context(secret: &[u8], tau: &[u8], randomness: &[u8]) -> (r: Result<
    EphemeralProjection,
    IdentityError,
>)
    ensures
        r is Err <==> (secret@.len() != 32 || randomness@.len() < 32),
        r matches Err(e) ==> e == IdentityError::InvalidInputLength,
        r matches Ok(p) ==> {
            &&& p.tau@ == pad_tau_spec(tau@)
            &&& p.salt@ == projection_salt(randomness@, pad_tau_spec(tau@))
            &&& p.matrix_a@ == context_matrix(p.tau@, p.salt@)
            &&& p.public_b@ == projection_b(p.matrix_a@, master_secret(secret@), error_poly(randomness@, tau@))
        },
{
    let seed = secret_as_seed(secret)?;
    if randomness.len() < 32 {
        return Err(IdentityError::InvalidInputLength);
    }
    let identity = MasterIdentity::from_seed(&seed);
    Ok(identity.project_at_context(tau, randomness))
}

/// A polynomial from a list of exactly 256 coefficients, each below `Q`;
/// any other list is `SerializationError`.
fn poly_from_coeffs(coeffs: &[u32]) -> (r: Result<Poly, IdentityError>)
    ensures
        r is Ok <==> poly_bounded(coeffs@),
        r matches Err(e) ==> e == IdentityError::SerializationError,
        r matches Ok(p) ==> p@ == coeffs@,
{
    if coeffs.len() != 256 {
        return Err(IdentityError::SerializationError);
    }
    let mut arr = [0u32; 256];
    let mut i: usize = 0;
    while i < 256
        invariant
            i <= 256,
            coeffs@.len() == 256,
            forall|j: int| 0 <= j < i ==> #[trigger] arr@[j] == coeffs@[j] && coeffs@[j] < Q,
        decreases 256 - i,
    {
        if coeffs[i] >= Q {
            return Err(IdentityError::SerializationError);
        }
        arr[i] = coeffs[i];
        i += 1;
    }
    assert(arr@ =~= coeffs@);
    Ok(Poly::from_array(arr))
}

/// An identity proof from its three coefficient lists; a list that is not 256
/// coefficients below `Q` is `SerializationError`.
pub fn zk_proof_from_coeffs(commitment_w: &[u32], challenge_c: &[u32], response_z: &[u32]) -> (r: Result<
    ZkIdentityProof,
    IdentityError,
>)
    ensures
        r is Ok <==> (poly_bounded(commitment_w@) && poly_bounded(challenge_c@) && poly_bounded(response_z@)),
        r matches Err(e) ==> e == IdentityError::SerializationError,
        r matches Ok(p) ==> {
            &&& p.commitment_w@ == commitment_w@
            &&& p.challenge_c@ == challenge_c@
            &&& p.response_z@ == response_z@
        },
{
    Ok(
        ZkIdentityProof {
            commitment_w: poly_from_coeffs(commitment_w)?,
            challenge_c: poly_from_coeffs(challenge_c)?,
            response_z: poly_from_coeffs(response_z)?,
        },
    )
}

/// Verify an identity proof given as coefficient lists against `projection`:
/// a proof that parses and does not verify is `Ok(false)`; one that does not
/// parse is `SerializationError`.
pub fn plp_verify(
    projection: &EphemeralProjection,
    commitment_w: &[u32],
    challenge_c: &[u32],
    response_z: &[u32],
) -> (r: Result<bool, IdentityError>)
    ensures
        r is Ok <==> (poly_bounded(commitment_w@) && poly_bounded(challenge_c@) && poly_bounded(response_z@)),
        r matches Err(e) ==> e == IdentityError::SerializationError,
        r matches Ok(b) ==> b == verify_spec(
            projection.tau@,
            projection.salt@,
            projection.public_b@,
            commitment_w@,
            challenge_c@,
            response_z@,
        ),
{
    let proof = zk_proof_from_coeffs(commitment_w, challenge_c, response_z)?;
    Ok(Verifier::verify(projection, &proof))
}

/// The first accepted proof attempt for `seed` at context `tau` with
/// projection randomness `rho`, if any.
pub open spec fn proof_outcome(seed: Seq<u8>, tau: Seq<u8>, rho: Seq<u8>) -> Option<nat> {
    let tau32 = pad_tau_spec(tau);
    let salt = projection_salt(rho, tau32);
    first_accepted(context_matrix(tau32, salt), master_secret(seed), seed, tau32, salt, 16)
}

/// `p` is the proof of attempt `it` for `seed` at `(tau, rho)`.
pub open spec fn is_proof_attempt(p: ZkIdentityProof, seed: Seq<u8>, tau: Seq<u8>, rho: Seq<u8>, it: int) -> bool {
    let tau32 = pad_tau_spec(tau);
    let salt = projection_salt(rho, tau32);
    let a = context_matrix(tau32, salt);
    &&& p.commitment_w@ == attempt_w(a, seed, tau32, it)
    &&& p.challenge_c@ == attempt_c(a, seed, tau32, salt, it)
    &&& p.response_z@ == attempt_z(a, master_secret(seed), seed, tau32, salt, it)
}

/// Prove the identity of a 32-byte secret at context `tau`; `randomness` is
/// the projection's `rho`, needed to rebuild its matrix. A secret of another
/// length, or randomness shorter than 32 bytes, is `InvalidInputLength`;
/// exhausted rejection sampling is `RejectionSamplingFailed`.
pub fn plp_prove_identity(secret: &[u8], tau: &[u8], randomness: &[u8]) -> (r: Result<ZkIdentityProof, IdentityError>)
    ensures
        (secret@.len() != 32 || randomness@.len() < 32) ==> r == Err::<ZkIdentityProof, IdentityError>(
            IdentityError::InvalidInputLength,
        ),
        (secret@.len() == 32 && randomness@.len() >= 32) ==> match proof_outcome(secret@, tau@, randomness@) {
            Some(it) => r matches Ok(p) && is_proof_attempt(p, secret@, tau@, randomness@, it as int),
            None => r == Err::<ZkIdentityProof, IdentityError>(IdentityError::RejectionSamplingFailed),
        },
{
    let seed = secret_as_seed(secret)?;
    prove_with_seed(&seed, tau, randomness)
}

/// Shared body of the proving entry points.
fn prove_with_seed(seed: &[u8; 32], tau: &[u8], randomness: &[u8]) -> (r: Result<ZkIdentityProof, IdentityError>)
    ensures
        randomness@.len() < 32 ==> r == Err::<ZkIdentityProof, IdentityError>(IdentityError::InvalidInputLength),
        randomness@.len() >= 32 ==> match proof_outcome(seed@, tau@, randomness@) {
            Some(it) => r matches Ok(p) && is_proof_attempt(p, seed@, tau@, randomness@, it as int),
            None => r == Err::<ZkIdentityProof, IdentityError>(IdentityError::RejectionSamplingFailed),
        },
{
    if randomness.len() < 32 {
        return Err(IdentityError::InvalidInputLength);
    }
    let identity = MasterIdentity::from_seed(seed);
    let proj = EphemeralProjection::for_proving(tau, randomness);
    Prover::prove_identity(&identity, &proj, seed)
}

impl OwnedIdentity {
    /// The identity's PLP seed.
    pub closed spec fn plp_seed_view(&self) -> Seq<u8> {
        self.0.plp_seed_view()
    }

    /// The identity's ML-DSA-65 key seed.
    pub closed spec fn key_seed_view(&self) -> Seq<u8> {
        self.0.key_seed_view()
    }

    /// Derive an identity from at least 32 bytes of entropy (else
    /// `InvalidInputLength`).
    pub fn generate(entropy: &[u8]) -> (r: Result<Self, IdentityError>)
        ensures
            r is Err <==> entropy@.len() < 32,
            r matches Err(e) ==> e == IdentityError::InvalidInputLength,
            r matches Ok(id) ==> id.plp_seed_view() == keygen_stream(entropy@, 64).subrange(0, 32),
            r matches Ok(id) ==> id.key_seed_view() == keygen_stream(entropy@, 64).subrange(32, 64),
    {
        let identity = Identity::generate(entropy)?;
        Ok(OwnedIdentity(identity))
    }

    /// The ML-DSA-65 public key bytes (an encoded verifying key).
    pub fn public_key(&self) -> (r: Vec<u8>)
        ensures
            r@ == mldsa65_public_key_of(self.key_seed_view()),
            r@.len() == MLDSA65_PUBLIC_KEY_BYTES,
    {
        self.0.public_key()
    }

    /// Sign `message` deterministically; a signing failure is
    /// `SerializationError`. A signature verifies under the public key.
    pub fn sign(&self, message: &[u8]) -> (r: Result<Vec<u8>, IdentityError>)
        ensures
            match mldsa65_signature_of(self.key_seed_view(), message@) {
                Some(sig) => r matches Ok(v) && v@ == sig,
                None => r == Err::<Vec<u8>, IdentityError>(IdentityError::SerializationError),
            },
            r matches Ok(sig) ==> sig@.len() == MLDSA65_SIGNATURE_BYTES,
            r matches Ok(sig) ==> mldsa65_verdict(mldsa65_public_key_of(self.key_seed_view()), message@, sig@)
                == Some(true),
    {
        self.0.sign(message)
    }

    /// Project the identity at context `tau` with fresh randomness of at
    /// least 32 bytes (else `InvalidInputLength`).
    pub fn project_at_context(&self, tau: &[u8], randomness: &[u8]) -> (r: Result<EphemeralProjection, IdentityError>)
        ensures
            r is Err <==> randomness@.len() < 32,
            r matches Err(e) ==> e == IdentityError::InvalidInputLength,
            r matches Ok(p) ==> {
                &&& p.tau@ == pad_tau_spec(tau@)
                &&& p.salt@ == projection_salt(randomness@, pad_tau_spec(tau@))
                &&& p.matrix_a@ == context_matrix(p.tau@, p.salt@)
                &&& p.public_b@ == projection_b(
                    p.matrix_a@,
                    master_secret(self.plp_seed_view()),
                    error_poly(randomness@, tau@),
                )
            },
    {
        if randomness.len() < 32 {
            return Err(IdentityError::InvalidInputLength);
        }
        let identity = MasterIdentity::from_seed(self.0.plp_seed());
        Ok(identity.project_at_context(tau, randomness))
    }

    /// Prove the identity at context `tau`; `randomness` is the projection's
    /// `rho` (at least 32 bytes, else `InvalidInputLength`).
    pub fn prove(&self, tau: &[u8], randomness: &[u8]) -> (r: Result<ZkIdentityProof, IdentityError>)
        ensures
            randomness@.len() < 32 ==> r == Err::<ZkIdentityProof, IdentityError>(IdentityError::InvalidInputLength),
            randomness@.len() >= 32 ==> match proof_outcome(self.plp_seed_view(), tau@, randomness@) {
                Some(it) => r matches Ok(p) && is_proof_attempt(p, self.plp_seed_view(), tau@, randomness@, it as int),
                None => r == Err::<ZkIdentityProof, IdentityError>(IdentityError::RejectionSamplingFailed),
            },
    {
        prove_with_seed(self.0.plp_seed(), tau, randomness)
    }
}

// ── Credential ───────────────────────────────────────────────────────────────

/// A presentation as the component returns it: flat coefficient lists.
pub struct CredentialPresentation {
    /// The caller's context bytes.
    pub tau: Vec<u8>,
    /// Disclosure mask.
    pub disclosed: u8,
    /// Disclosed values, one per attribute slot.
    pub disclosed_values: Vec<u64>,
    /// Blinded commitment, 13 polynomials.
    pub t_blind: Vec<i32>,
    /// Challenge, one polynomial.
    pub challenge: Vec<i32>,
    /// `z_r`, 4 polynomials.
    pub z_r: Vec<i32>,
    /// `z_m`, 9 polynomials.
    pub z_m: Vec<i32>,
    /// `z_s`, one polynomial.
    pub z_s: Vec<i32>,
    /// `z_e`, one polynomial.
    pub z_e: Vec<i32>,
}

/// A credential as the component holds it, with its issuer's seed.
pub struct OwnedCredential {
    credential: Credential,
    issuer_seed: Vec<u8>,
}

impl OwnedCredential {
    /// The issuer's seed.
    pub closed spec fn issuer_seed_view(&self) -> Seq<u8> {
        self.issuer_seed@
    }

    /// The credential's commitment.
    pub closed spec fn commitment_view(&self) -> Seq<Seq<int>> {
        self.credential.commitment_view()
    }

    /// The credential's randomness.
    pub closed spec fn randomness_view(&self) -> Seq<Seq<int>> {
        self.credential.randomness_view()
    }

    /// The credential's messages.
    pub closed spec fn messages_view(&self) -> Seq<Seq<int>> {
        self.credential.messages_view()
    }

    /// Issue a credential over `holder` with exactly 8 attribute values (else
    /// `InvalidInputLength`), under the issuer expanded from `issuer_seed`.
    pub fn issue(holder: &OwnedIdentity, issuer_seed: Vec<u8>, attributes: &[u64], issuance_randomness: &[u8]) -> (r: Result<
        Self,
        IdentityError,
    >)
        ensures
            r is Err <==> (attributes@.len() != 8 || issuance_randomness@.len() < 32 || !attributes_in_range(
                attributes@,
            )),
            r matches Err(e) ==> e == IdentityError::InvalidInputLength,
            r matches Ok(c) ==> {
                &&& c.issuer_seed_view() == issuer_seed@
                &&& c.messages_view() == issue_messages(master_secret(holder.plp_seed_view()), attributes@)
                &&& c.randomness_view() == small_vec(DOMAIN_ISSUE_RANDOMNESS@, issuance_randomness@)
                &&& c.commitment_view() == add_slots(
                    mat_vec(issuer_matrix(issuer_seed@), c.randomness_view()),
                    c.messages_view(),
                )
            },
    {
        if attributes.len() != CRED_ATTRIBUTES {
            return Err(IdentityError::InvalidInputLength);
        }
        let mut values = [0u64; CRED_ATTRIBUTES];
        let mut i: usize = 0;
        while i < CRED_ATTRIBUTES
            invariant
                i <= CRED_ATTRIBUTES,
                attributes@.len() == 8,
                forall|j: int| 0 <= j < i ==> #[trigger] values@[j] == attributes@[j],
            decreases CRED_ATTRIBUTES - i,
        {
            values[i] = attributes[i];
            i += 1;
        }
        assert(values@ =~= attributes@);
        let identity = MasterIdentity::from_seed(holder.0.plp_seed());
        let params = IssuerParams::from_seed(&issuer_seed);
        let cred = Credential::issue(&params, &identity, &values, issuance_randomness)?;
        Ok(OwnedCredential { credential: cred, issuer_seed })
    }

    /// Present the credential at context `tau`: project `holder` with
    /// `projection_randomness`, blind with `blinding_randomness`, and prove
    /// with `presentation_randomness` (each at least 32 bytes, else
    /// `InvalidInputLength`).
    #[verifier::rlimit(30)]
    pub fn present(
        &self,
        holder: &OwnedIdentity,
        tau: &[u8],
        projection_randomness: &[u8],
        disclosed: u8,
        blinding_randomness: &[u8],
        presentation_randomness: &[u8],
    ) -> (r: Result<CredentialPresentation, IdentityError>)
        ensures
            ({
                let s = master_secret(holder.plp_seed_view());
                let tau32 = pad_tau_spec(tau@);
                let salt = projection_salt(projection_randomness@, tau32);
                let a = context_matrix(tau32, salt);
                let b = projection_b(a, s, error_poly(projection_randomness@, tau@));
                let mtx = issuer_matrix(self.issuer_seed_view());
                let rb = small_vec(DOMAIN_BLIND@, blinding_randomness@);
                let inp = proof_inputs_from(
                    mtx,
                    add_vecs(self.commitment_view(), mat_vec(mtx, rb)),
                    add_vecs(self.randomness_view(), rb),
                    self.messages_view(),
                    a,
                    b,
                    s,
                    tau@,
                    projection_randomness@,
                    disclosed,
                    presentation_randomness@,
                );
                if projection_randomness@.len() < 32 || blinding_randomness@.len() < 32
                    || presentation_randomness@.len() < 32 {
                    r == Err::<CredentialPresentation, IdentityError>(IdentityError::InvalidInputLength)
                } else {
                    match first_ok(inp, 32) {
                        Some(it) => r matches Ok(rec) && {
                            &&& rec.tau@ == tau@
                            &&& rec.disclosed == disclosed
                            &&& rec.disclosed_values@ == inp.dvals
                            &&& i32s_to_ints(rec.t_blind@) == flat_ints(inp.t_blind)
                            &&& i32s_to_ints(rec.challenge@) == attempt_challenge(inp, it)
                            &&& i32s_to_ints(rec.z_r@) == flat_ints(attempt_z_r(inp, it))
                            &&& i32s_to_ints(rec.z_m@) == flat_ints(attempt_z_m(inp, it))
                            &&& i32s_to_ints(rec.z_s@) == attempt_z_s(inp, it)
                            &&& i32s_to_ints(rec.z_e@) == attempt_z_e(inp, it)
                        },
                        None => r == Err::<CredentialPresentation, IdentityError>(
                            IdentityError::RejectionSamplingFailed,
                        ),
                    }
                }
            }),
    {
        if projection_randomness.len() < 32 {
            return Err(IdentityError::InvalidInputLength);
        }
        let identity = MasterIdentity::from_seed(holder.0.plp_seed());
        let projection = identity.project_at_context(tau, projection_randomness);
        let params = IssuerParams::from_seed(&self.issuer_seed);
        let blinded = BlindedCredential::new(&params, &self.credential, blinding_randomness)?;
        let presentation = crate::credential::prove(
            &params,
            &blinded,
            &identity,
            &projection,
            tau,
            projection_randomness,
            disclosed,
            presentation_randomness,
        )?;
        let rec = flat_record(tau, disclosed, &presentation, &blinded);
        Ok(rec)
    }
}

/// The flat form of a presentation and the blinded commitment it was made
/// over.
fn flat_record(tau: &[u8], disclosed: u8, presentation: &SaapPresentation, blinded: &BlindedCredential) -> (rec:
    CredentialPresentation)
    ensures
        rec.tau@ == tau@,
        rec.disclosed == disclosed,
        rec.disclosed_values@ == presentation.disclosed_values@,
        i32s_to_ints(rec.t_blind@) == flat_ints(blinded.commitment_view()),
        i32s_to_ints(rec.challenge@) == poly_ints(presentation.challenge),
        i32s_to_ints(rec.z_r@) == flat_ints(polys_view(presentation.z_r@)),
        i32s_to_ints(rec.z_m@) == flat_ints(polys_view(presentation.z_m@)),
        i32s_to_ints(rec.z_s@) == poly_ints(presentation.z_s),
        i32s_to_ints(rec.z_e@) == poly_ints(presentation.z_e),
{
    let t_blind = commitment_flat(blinded);
    let z_r = flatten(&presentation.z_r);
    let z_m = flatten(&presentation.z_m);
    let one_c = [presentation.challenge];
    let one_s = [presentation.z_s];
    let one_e = [presentation.z_e];
    assert(one_c@ =~= seq![presentation.challenge]);
    assert(one_s@ =~= seq![presentation.z_s]);
    assert(one_e@ =~= seq![presentation.z_e]);
    let challenge = flatten(&one_c);
    let z_s = flatten(&one_s);
    let z_e = flatten(&one_e);
    let mut disclosed_values: Vec<u64> = Vec::new();
    let mut i: usize = 0;
    while i < CRED_ATTRIBUTES
        invariant
            i <= CRED_ATTRIBUTES,
            disclosed_values@ == presentation.disclosed_values@.subrange(0, i as int),
        decreases CRED_ATTRIBUTES - i,
    {
        disclosed_values.push(presentation.disclosed_values[i]);
        i += 1;
    }
    assert(disclosed_values@ =~= presentation.disclosed_values@);
    let mut tau_v: Vec<u8> = Vec::new();
    crate::xof::push_bytes(&mut tau_v, tau);
    assert(tau_v@ =~= tau@);
    proof {
        lemma_flat_ints(blinded.commitment_polys());
        lemma_flat_ints(presentation.z_r@);
        lemma_flat_ints(presentation.z_m@);
        lemma_single_flat(presentation.challenge);
        lemma_single_flat(presentation.z_s);
        lemma_single_flat(presentation.z_e);
    }
    CredentialPresentation { tau: tau_v, disclosed, disclosed_values, t_blind, challenge, z_r, z_m, z_s, z_e }
}

proof fn lemma_single_flat(p: Polynomial)
    ensures
        i32s_to_ints(flat_coeffs(seq![p])) == poly_ints(p),
{
    lemma_flat_ints(seq![p]);
    let v = polys_view(seq![p]);
    assert(v.len() == 1);
    assert(v.last() == poly_ints(p));
    assert(flat_ints(v.drop_last()) =~= Seq::<int>::empty());
    assert(flat_ints(v) =~= poly_ints(p));
}

// ── Presentation verification ────────────────────────────────────────────────

/// No entry is `i32::MIN`.
pub open spec fn no_i32_min(s: Seq<i32>) -> bool {
    forall|i: int| 0 <= i < s.len() ==> #[trigger] s[i] != i32::MIN
}

/// The flat lists have the lengths the parameter set fixes.
pub open spec fn flat_lengths_ok(p: CredentialPresentation) -> bool {
    &&& p.t_blind@.len() == 13 * 256
    &&& p.disclosed_values@.len() == 8
    &&& p.challenge@.len() == 256
    &&& p.z_r@.len() == 4 * 256
    &&& p.z_m@.len() == 9 * 256
    &&& p.z_s@.len() == 256
    &&& p.z_e@.len() == 256
}

/// The verdict on a flat presentation: `Ok(false)` if it was made for other
/// context bytes, `InvalidInputLength` if a list has the wrong length, else
/// [`verify_views`] on its parts.
pub open spec fn verify_presentation_spec(
    issuer_seed: Seq<u8>,
    p: CredentialPresentation,
    projection: EphemeralProjection,
    tau: Seq<u8>,
) -> Result<bool, IdentityError> {
    if p.tau@ != tau {
        Ok(false)
    } else if !flat_lengths_ok(p) {
        Err(IdentityError::InvalidInputLength)
    } else {
        verify_views(
            issuer_matrix(issuer_seed),
            chunks(p.challenge@, 1)[0],
            chunks(p.z_r@, 4),
            chunks(p.z_m@, 9),
            chunks(p.z_s@, 1)[0],
            chunks(p.z_e@, 1)[0],
            p.disclosed,
            p.disclosed_values@,
            chunks(p.t_blind@, 13),
            crate::credential::centred_of(projection.matrix_a@),
            crate::credential::centred_of(projection.public_b@),
            tau,
        )
    }
}

/// Byte-wise equality.
fn bytes_equal(a: &[u8], b: &[u8]) -> (r: bool)
    ensures
        r == (a@ == b@),
{
    if a.len() != b.len() {
        return false;
    }
    let mut i: usize = 0;
    while i < a.len()
        invariant
            i <= a@.len(),
            a@.len() == b@.len(),
            forall|j: int| 0 <= j < i ==> #[trigger] a@[j] == b@[j],
        decreases a@.len() - i,
    {
        if a[i] != b[i] {
            return false;
        }
        i += 1;
    }
    assert(a@ =~= b@);
    true
}

/// Rebuilt polynomials keep the no-`i32::MIN` property of their flat list.
proof fn lemma_unflattened_fit(ps: Seq<Polynomial>, flat: Seq<i32>)
    requires
        flat_coeffs(ps) == flat,
        no_i32_min(flat),
    ensures
        forall|j: int| 0 <= j < ps.len() ==> #[trigger] crate::credential::abs_fits(ps[j]),
{
    assert forall|j: int| 0 <= j < ps.len() implies #[trigger] crate::credential::abs_fits(ps[j]) by {
        assert forall|i: int| 0 <= i < 256 implies #[trigger] ps[j].coeffs@[i] != i32::MIN by {
            lemma_flat_index(ps, j, i);
        }
    }
}

/// Verify a single-response SAAP proof at context `tau`: always `Ok(false)`.
///
/// Such a proof verifies only against a public key `t = A_τ·sk`, which this
/// operation has no parameter for and which, without an error term, would
/// publish an exact linear image of the secret. The operation denies rather
/// than answer unsoundly; `Ok(false)` here is no statement about the proof.
pub fn saap_verify(_proof: &[u8], _tau: &[u8]) -> (r: Result<bool, IdentityError>)
    ensures
        r == Ok::<bool, IdentityError>(false),
{
    Ok(false)
}

/// Verify a flat presentation against the issuer expanded from
/// `issuer_seed`, a projection and the context bytes. A presentation made
/// for these context bytes, with lists of the right lengths, must hold no
/// response coefficient equal to `i32::MIN`.
pub fn saap_verify_presentation(
    issuer_seed: &[u8],
    presentation: &CredentialPresentation,
    projection: &EphemeralProjection,
    tau: &[u8],
) -> (r: Result<bool, IdentityError>)
    requires
        presentation.tau@ == tau@ && flat_lengths_ok(*presentation) ==> {
            &&& no_i32_min(presentation.z_r@)
            &&& no_i32_min(presentation.z_s@)
            &&& no_i32_min(presentation.z_e@)
        },
    ensures
        r == verify_presentation_spec(issuer_seed@, *presentation, *projection, tau@),
{
    if !bytes_equal(&presentation.tau, tau) {
        return Ok(false);
    }
    let t_blind = unflatten::<CRED_T>(&presentation.t_blind)?;
    if presentation.disclosed_values.len() != CRED_ATTRIBUTES {
        return Err(IdentityError::InvalidInputLength);
    }
    let mut disclosed_values = [0u64; CRED_ATTRIBUTES];
    let mut i: usize = 0;
    while i < CRED_ATTRIBUTES
        invariant
            i <= CRED_ATTRIBUTES,
            presentation.disclosed_values@.len() == 8,
            forall|j: int| 0 <= j < i ==> #[trigger] disclosed_values@[j] == presentation.disclosed_values@[j],
        decreases CRED_ATTRIBUTES - i,
    {
        disclosed_values[i] = presentation.disclosed_values[i];
        i += 1;
    }
    assert(disclosed_values@ =~= presentation.disclosed_values@);
    let tau_padded = pad_tau(tau);
    let challenge = unflatten::<1>(&presentation.challenge)?;
    let z_r = unflatten::<CRED_L>(&presentation.z_r)?;
    let z_m = unflatten::<CRED_SLOTS>(&presentation.z_m)?;
    let z_s = unflatten::<1>(&presentation.z_s)?;
    let z_e = unflatten::<1>(&presentation.z_e)?;
    proof {
        lemma_unflattened_chunks(t_blind@, presentation.t_blind@);
        lemma_unflattened_chunks(challenge@, presentation.challenge@);
        lemma_unflattened_chunks(z_r@, presentation.z_r@);
        lemma_unflattened_chunks(z_m@, presentation.z_m@);
        lemma_unflattened_chunks(z_s@, presentation.z_s@);
        lemma_unflattened_chunks(z_e@, presentation.z_e@);
        lemma_unflattened_fit(z_r@, presentation.z_r@);
        lemma_unflattened_fit(z_s@, presentation.z_s@);
        lemma_unflattened_fit(z_e@, presentation.z_e@);
    }
    let native = SaapPresentation {
        tau: tau_padded,
        disclosed: presentation.disclosed,
        disclosed_values,
        challenge: challenge[0],
        z_r,
        z_m,
        z_s: z_s[0],
        z_e: z_e[0],
    };
    let params = IssuerParams::from_seed(issuer_seed);
    crate::credential::verify(&params, &native, &t_blind, projection, tau)
}

} // verus!
