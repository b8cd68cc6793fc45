//! The authenticated cipher that seals and opens single chunks.
use seal_crypto_wrapper::algorithms::aead::{AeadAlgorithm, AesKeySize};
use seal_crypto_wrapper::prelude::TypedAeadKey;
use seal_crypto_wrapper::traits::AeadAlgorithmTrait;
use seal_crypto_wrapper::wrappers::aead::AeadAlgorithmWrapper;
use vstd::prelude::*;

verus! {

/// The authenticated ciphers a stream can be sealed with.
#[derive(Clone, Copy, Debug, PartialEq, Eq, Structural)]
pub enum Algorithm {
    Aes128Gcm,
    Aes256Gcm,
    ChaCha20Poly1305,
    XChaCha20Poly1305,
}

/// Length in bytes of the authentication tag appended to every sealed chunk.
pub open spec fn tag_len(alg: Algorithm) -> nat {
    16
}

/// The view of optional associated data.
pub open spec fn aad_view(aad: Option<Vec<u8>>) -> Option<Seq<u8>> {
    match aad {
        Some(v) => Some(v@),
        None => None,
    }
}

/// What sealing `plaintext` with the given cipher, key bytes, nonce and
/// associated data yields: the ciphertext followed by the tag, or `None` where
/// the cipher refuses.
pub uninterp spec fn sealed(
    alg: Algorithm,
    key: Seq<u8>,
    nonce: Seq<u8>,
    aad: Option<Seq<u8>>,
    plaintext: Seq<u8>,
) -> Option<Seq<u8>>;

/// What opening `ciphertext` (sealed chunk and tag) with the given cipher,
/// key bytes, nonce and associated data yields: the plaintext, or `None` where
/// the cipher refuses it, as it does a chunk that fails authentication.
pub uninterp spec fn opened(
    alg: Algorithm,
    key: Seq<u8>,
    nonce: Seq<u8>,
    aad: Option<Seq<u8>>,
    ciphertext: Seq<u8>,
) -> Option<Seq<u8>>;

#[verifier::external_type_specification]
#[verifier::external_body]
pub struct ExCipherError(seal_crypto_wrapper::error::Error);

/// Relies on `AeadAlgorithmTrait::tag_size` of seal-crypto-wrapper: every
/// supported cipher appends a 16-byte tag.
#[verifier::external_body]
pub(crate) fn tag_size(alg: Algorithm) -> (r: usize)
    ensures
        r == tag_len(alg),
{
    let a = match alg {
        Algorithm::Aes128Gcm => AeadAlgorithm::AesGcm(AesKeySize::K128),
        Algorithm::Aes256Gcm => AeadAlgorithm::AesGcm(AesKeySize::K256),
        Algorithm::ChaCha20Poly1305 => AeadAlgorithm::ChaCha20Poly1305,
        Algorithm::XChaCha20Poly1305 => AeadAlgorithm::XChaCha20Poly1305,
    };
    AeadAlgorithmWrapper::from_enum(a).tag_size()
}

/// Relies on `TypedAeadKey::from_bytes` and `AeadAlgorithmTrait::encrypt` of
/// seal-crypto-wrapper: sealing is deterministic in its inputs, and a sealed
/// chunk is the plaintext's length plus the tag.
#[verifier::external_body]
pub(crate) fn seal_chunk(
    alg: Algorithm,
    key: &Vec<u8>,
    nonce: &Vec<u8>,
    aad: &Option<Vec<u8>>,
    plaintext: &[u8],
) -> (r: Result<Vec<u8>, seal_crypto_wrapper::error::Error>)
    ensures
        r is Ok <==> sealed(alg, key@, nonce@, aad_view(*aad), plaintext@) is Some,
        r is Ok ==> Some(r->Ok_0@) == sealed(alg, key@, nonce@, aad_view(*aad), plaintext@),
        r is Ok ==> r->Ok_0@.len() == plaintext@.len() + tag_len(alg),
{
    let a = match alg {
        Algorithm::Aes128Gcm => AeadAlgorithm::AesGcm(AesKeySize::K128),
        Algorithm::Aes256Gcm => AeadAlgorithm::AesGcm(AesKeySize::K256),
        Algorithm::ChaCha20Poly1305 => AeadAlgorithm::ChaCha20Poly1305,
        Algorithm::XChaCha20Poly1305 => AeadAlgorithm::XChaCha20Poly1305,
    };
    let k = TypedAeadKey::from_bytes(key.as_slice(), a)?;
    AeadAlgorithmWrapper::from_enum(a).encrypt(plaintext, &k, nonce.as_slice(), aad.as_deref())
}

/// Relies on `TypedAeadKey::from_bytes` and `AeadAlgorithmTrait::decrypt` of
/// seal-crypto-wrapper: the result depends on its inputs alone; opening a
/// chunk sealed under the same cipher, key, nonce and associated data gives
/// back its plaintext, and an opened chunk is the tag shorter than its input.
#[verifier::external_body]
pub(crate) fn open_chunk(
    alg: Algorithm,
    key: &Vec<u8>,
    nonce: &Vec<u8>,
    aad: &Option<Vec<u8>>,
    ciphertext: &[u8],
) -> (r: Result<Vec<u8>, seal_crypto_wrapper::error::Error>)
    ensures
        r is Ok <==> opened(alg, key@, nonce@, aad_view(*aad), ciphertext@) is Some,
        r is Ok ==> Some(r->Ok_0@) == opened(alg, key@, nonce@, aad_view(*aad), ciphertext@),
        forall|p: Seq<u8>|
            #[trigger] sealed(alg, key@, nonce@, aad_view(*aad), p) == Some(ciphertext@) ==> (r is Ok
                && r->Ok_0@ == p),
        r is Ok ==> r->Ok_0@.len() + tag_len(alg) == ciphertext@.len(),
{
    let a = match alg {
        Algorithm::Aes128Gcm => AeadAlgorithm::AesGcm(AesKeySize::K128),
        Algorithm::Aes256Gcm => AeadAlgorithm::AesGcm(AesKeySize::K256),
        Algorithm::ChaCha20Poly1305 => AeadAlgorithm::ChaCha20Poly1305,
        Algorithm::XChaCha20Poly1305 => AeadAlgorithm::XChaCha20Poly1305,
    };
    let k = TypedAeadKey::from_bytes(key.as_slice(), a)?;
    AeadAlgorithmWrapper::from_enum(a).decrypt(ciphertext, &k, nonce.as_slice(), aad.as_deref())
}

} // verus!

verus! {

/// A key for one of the supported ciphers.
pub struct StreamKey {
    pub algorithm: Algorithm,
    pub bytes: Vec<u8>,
}

/// The parameters a stream is sealed with, fixed for its whole lifetime.
pub struct AeadParams {
    pub algorithm: Algorithm,
    /// Plaintext bytes per chunk (positive).
    pub chunk_size: u32,
    /// The per-stream nonce that chunk nonces are derived from.
    pub base_nonce: Vec<u8>,
}

} // verus!
