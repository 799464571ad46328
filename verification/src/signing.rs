//! Identity key generation and signing: one entropy input derives both an
//! ML-DSA-65 signing key and the PLP seed, under one domain separator.
//!
//! SHAKE-256("AETHEL_IDENTITY_KEYGEN_V1" ∥ entropy) is read as one stream: its
//! first 32 bytes are the PLP seed, the next 32 bytes the ML-DSA-65 key seed.

use vstd::prelude::*;

use pqc_sig::{MlDsa65Keypair, SigAlgorithm, SigError, SigPublicKey, Signature};

use crate::identity_error::IdentityError;
use crate::xof::{push_bytes, shake256, shake256_output};

verus! {

/// Length of an encoded ML-DSA-65 public key.
pub const MLDSA65_PUBLIC_KEY_BYTES: usize = 1952;

/// Length of an encoded ML-DSA-65 signature.
pub const MLDSA65_SIGNATURE_BYTES: usize = 3309;

/// Minimum entropy accepted by [`Identity::generate`].
pub const MIN_ENTROPY_BYTES: usize = 32;

/// `"AETHEL_IDENTITY_KEYGEN_V1"`: identity key generation.
pub const KEYGEN_DOMAIN: [u8; 25] = [
    65, 69, 84, 72, 69, 76, 95, 73, 68, 69, 78, 84, 73, 84, 89, 95, 75, 69, 89, 71, 69, 78, 95, 86, 49,
];

/// ML-DSA-65's verdict on `signature` over `message` under `public_key`:
/// `None` where the key or the signature cannot be decoded, else whether the
/// signature verifies.
pub uninterp spec fn mldsa65_verdict(public_key: Seq<u8>, message: Seq<u8>, signature: Seq<u8>) -> Option<bool>;

/// The encoded ML-DSA-65 public key of the keypair derived from `seed`.
pub uninterp spec fn mldsa65_public_key_of(seed: Seq<u8>) -> Seq<u8>;

/// The deterministic ML-DSA-65 signature of `message` under the keypair
/// derived from `seed`; `None` where signing fails.
pub uninterp spec fn mldsa65_signature_of(seed: Seq<u8>, message: Seq<u8>) -> Option<Seq<u8>>;

/// The key-generation stream of `entropy`, first `len` bytes.
pub open spec fn keygen_stream(entropy: Seq<u8>, len: nat) -> Seq<u8> {
    shake256_output(KEYGEN_DOMAIN@ + entropy, len)
}

/// pqc-sig `MlDsa65Keypair::public_key` of the keypair that
/// `MlDsa65Keypair::from_secret_key_bytes` derives from a 32-byte seed.
///
/// Claims: the bytes are the named public key of the seed, and 1952 bytes
/// long (an encoded ML-DSA-65 verifying key). The source builds the keypair
/// from any 32-byte slice without failing, and derives it from the seed alone.
#[verifier::external_body]
fn mldsa65_public_key(seed: &[u8; 32]) -> (r: Vec<u8>)
    ensures
        r@ == mldsa65_public_key_of(seed@),
        r@.len() == MLDSA65_PUBLIC_KEY_BYTES,
{
    match MlDsa65Keypair::from_secret_key_bytes(seed) {
        Ok(keypair) => keypair.public_key().bytes,
        Err(_) => Vec::new(),
    }
}

/// pqc-sig `MlDsa65Keypair::sign_deterministic` under the keypair that
/// `MlDsa65Keypair::from_secret_key_bytes` derives from a 32-byte seed,
/// returning the signature bytes.
///
/// Claims: the answer is the named deterministic signature of the seed and
/// message (`None` where signing fails; rejection sampling can run out); a
/// signature is 3309 bytes long and verifies under the seed's public key
/// (ML-DSA correctness, which pqc-sig's sign-and-verify tests exercise).
#[verifier::external_body]
fn mldsa65_sign(seed: &[u8; 32], message: &[u8]) -> (r: Option<Vec<u8>>)
    ensures
        match r {
            Some(sig) => mldsa65_signature_of(seed@, message@) == Some(sig@),
            None => mldsa65_signature_of(seed@, message@) is None,
        },
        r matches Some(sig) ==> sig@.len() == MLDSA65_SIGNATURE_BYTES,
        r matches Some(sig) ==> mldsa65_verdict(mldsa65_public_key_of(seed@), message@, sig@) == Some(true),
{
    match MlDsa65Keypair::from_secret_key_bytes(seed) {
        Ok(keypair) => keypair.sign_deterministic(message).ok().map(|sig| sig.bytes),
        Err(_) => None,
    }
}

/// pqc-sig `MlDsa65Keypair::verify` on an ML-DSA-65 public key and signature
/// built from raw bytes.
///
/// Claims: the answer is the named verdict of the three byte strings:
/// `Some(true)` for `Ok`, `Some(false)` for `VerificationFailed`, `None` for
/// any other error (a key or signature that does not decode). A key that is
/// not 1952 bytes, or a signature that is not 3309 bytes, does not decode.
#[verifier::external_body]
fn mldsa65_verify(public_key: &[u8], message: &[u8], signature: &[u8]) -> (r: Option<bool>)
    ensures
        r == mldsa65_verdict(public_key@, message@, signature@),
        public_key@.len() != MLDSA65_PUBLIC_KEY_BYTES ==> r is None,
        signature@.len() != MLDSA65_SIGNATURE_BYTES ==> r is None,
{
    let pk = SigPublicKey { algorithm: SigAlgorithm::MlDsa65, bytes: public_key.to_vec() };
    let sig = Signature { algorithm: SigAlgorithm::MlDsa65, bytes: signature.to_vec() };
    match MlDsa65Keypair::verify(&pk, message, &sig) {
        Ok(()) => Some(true),
        Err(SigError::VerificationFailed) => Some(false),
        Err(_) => None,
    }
}

/// An agent's identity: the ML-DSA-65 key seed and the PLP seed, derived
/// together from one entropy input. The signing keypair is the one pqc-sig
/// derives from the key seed.
pub struct Identity {
    key_seed: [u8; 32],
    plp_seed: [u8; 32],
}

impl Identity {
    /// The PLP seed.
    pub closed spec fn plp_seed_view(&self) -> Seq<u8> {
        self.plp_seed@
    }

    /// The ML-DSA-65 key seed.
    pub closed spec fn key_seed_view(&self) -> Seq<u8> {
        self.key_seed@
    }

    /// Derive an identity from at least [`MIN_ENTROPY_BYTES`] bytes of entropy
    /// (else `InvalidInputLength`).
    ///
    /// The PLP seed is the first 32 bytes of the key-generation stream and the
    /// ML-DSA-65 key seed the next 32.
    pub fn generate(entropy: &[u8]) -> (r: Result<Self, IdentityError>)
        ensures
            r is Err <==> entropy@.len() < 32,
            r matches Err(e) ==> e == IdentityError::InvalidInputLength,
            r matches Ok(id) ==> id.plp_seed_view() == keygen_stream(entropy@, 64).subrange(0, 32),
            r matches Ok(id) ==> id.key_seed_view() == keygen_stream(entropy@, 64).subrange(32, 64),
    {
        if entropy.len() < MIN_ENTROPY_BYTES {
            return Err(IdentityError::InvalidInputLength);
        }
        let mut input: Vec<u8> = Vec::new();
        push_bytes(&mut input, &KEYGEN_DOMAIN);
        push_bytes(&mut input, entropy);
        let stream = shake256(&input, 64);
        let mut plp_seed = [0u8; 32];
        let mut key_seed = [0u8; 32];
        let mut i: usize = 0;
        while i < 32
            invariant
                i <= 32,
                stream@.len() == 64,
                forall|j: int| 0 <= j < i ==> #[trigger] plp_seed@[j] == stream@[j],
                forall|j: int| 0 <= j < i ==> #[trigger] key_seed@[j] == stream@[32 + j],
            decreases 32 - i,
        {
            plp_seed[i] = stream[i];
            key_seed[i] = stream[32 + i];
            i += 1;
        }
        assert(plp_seed@ =~= stream@.subrange(0, 32));
        assert(key_seed@ =~= stream@.subrange(32, 64));
        Ok(Self { key_seed, plp_seed })
    }

    /// The ML-DSA-65 public key bytes (an encoded verifying key).
    pub fn public_key(&self) -> (r: Vec<u8>)
        ensures
            r@ == mldsa65_public_key_of(self.key_seed_view()),
            r@.len() == MLDSA65_PUBLIC_KEY_BYTES,
    {
        mldsa65_public_key(&self.key_seed)
    }

    /// Sign `message` deterministically; a signing failure is
    /// `SerializationError`. A signature verifies under [`Identity::public_key`].
    pub fn sign(&self, message: &[u8]) -> (r: Result<Vec<u8>, IdentityError>)
        ensures
            match mldsa65_signature_of(self.key_seed_view(), message@) {
                Some(sig) => r matches Ok(v) && v@ == sig,
                None => r == Err::<Vec<u8>, IdentityError>(IdentityError::SerializationError),
            },
            r matches Ok(sig) ==> sig@.len() == MLDSA65_SIGNATURE_BYTES,
            r matches Ok(sig) ==> mldsa65_verdict(mldsa65_public_key_of(self.key_seed_view()), message@, sig@)
                == Some(true),
    {
        match mldsa65_sign(&self.key_seed, message) {
            Some(sig) => Ok(sig),
            None => Err(IdentityError::SerializationError),
        }
    }

    /// The PLP seed. Secret material: callers must not publish it.
    pub fn plp_seed(&self) -> (r: &[u8; 32])
        ensures
            r@ == self.plp_seed_view(),
    {
        &self.plp_seed
    }
}

/// What [`verify`] returns for an ML-DSA-65 outcome: `SerializationError`
/// where the key or signature cannot be read, else whether it verifies.
pub open spec fn verify_answer(verdict: Option<bool>) -> Result<bool, IdentityError> {
    match verdict {
        Some(b) => Ok(b),
        None => Err(IdentityError::SerializationError),
    }
}

/// Verify an ML-DSA-65 signature from raw bytes: `Ok(true)` if it verifies,
/// `Ok(false)` for a well-formed signature that does not, and
/// `Err(SerializationError)` for a key or signature that cannot be decoded.
pub fn verify(public_key: &[u8], message: &[u8], signature: &[u8]) -> (r: Result<bool, IdentityError>)
    ensures
        r == verify_answer(mldsa65_verdict(public_key@, message@, signature@)),
        public_key@.len() != MLDSA65_PUBLIC_KEY_BYTES ==> r == Err::<bool, IdentityError>(
            IdentityError::SerializationError,
        ),
        signature@.len() != MLDSA65_SIGNATURE_BYTES ==> r == Err::<bool, IdentityError>(
            IdentityError::SerializationError,
        ),
{
    match mldsa65_verify(public_key, message, signature) {
        Some(b) => Ok(b),
        None => Err(IdentityError::SerializationError),
    }
}

} // verus!
