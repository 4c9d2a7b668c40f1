//! The cryptographic primitives, as the outside crates provide them.
//!
//! Each of the functions here hands its arguments to one outside function. What that function
//! computes is not spelled out: it has a name (such as [`sha256`]), and beside the name stand the
//! few facts that the rest of the library rests on. Nothing in this file is proved; everything
//! above it is.
use aes_gcm::aead::{Aead, KeyInit, Payload};
use aes_gcm::Aes256Gcm;
use base64::engine::general_purpose::STANDARD;
use base64::Engine;
use hkdf::Hkdf;
use rand::rngs::OsRng;
use rand::RngCore;
use sha2::{Digest, Sha256};
use vstd::prelude::*;
use x25519_dalek::{PublicKey as X25519PublicKey, StaticSecret};

verus! {

/// The error of base64 decoding.
#[verifier::external_type_specification]
#[verifier::external_body]
pub struct ExDecodeError(base64::DecodeError);

/// The error of sealing and opening with AES-GCM.
#[verifier::external_type_specification]
#[verifier::external_body]
pub struct ExAeadError(aes_gcm::Error);

/// The SHA-256 digest of `data`.
pub uninterp spec fn sha256(data: Seq<u8>) -> Seq<u8>;

/// The first 32 bytes that HKDF-SHA-256 expands from `ikm`, `salt` and `info`.
pub uninterp spec fn hkdf_sha256(ikm: Seq<u8>, salt: Seq<u8>, info: Seq<u8>) -> Seq<u8>;

/// The AES-256-GCM ciphertext, tag at its end.
pub uninterp spec fn aes256gcm_seal(
    key: Seq<u8>,
    nonce: Seq<u8>,
    plaintext: Seq<u8>,
    aad: Seq<u8>,
) -> Seq<u8>;

/// The plaintext of an AES-256-GCM ciphertext, if its tag is right.
pub uninterp spec fn aes256gcm_open(
    key: Seq<u8>,
    nonce: Seq<u8>,
    ciphertext: Seq<u8>,
    aad: Seq<u8>,
) -> Option<Seq<u8>>;

/// The bytes in standard base64, padded.
pub uninterp spec fn base64_encode(bytes: Seq<u8>) -> Seq<char>;

/// The bytes that a text stands for in standard base64, if it is canonical.
pub uninterp spec fn base64_decode(text: Seq<char>) -> Option<Seq<u8>>;

/// The X25519 public key of a secret key.
pub uninterp spec fn x25519_public(secret: Seq<u8>) -> Seq<u8>;

/// The X25519 shared secret of a secret key and another's public key.
pub uninterp spec fn x25519_shared(secret: Seq<u8>, public: Seq<u8>) -> Seq<u8>;

/// The longest plaintext, and the longest associated data, that AES-GCM takes: 2^36 bytes.
pub const GCM_MAX: u64 = 0x10_0000_0000;

/// `sha2::Sha256::digest`: the digest of the whole input.
#[verifier::external_body]
pub(crate) fn sha256_digest(data: &[u8]) -> (digest: [u8; 32])
    ensures
        digest@ == sha256(data@),
{
    Sha256::digest(data).into()
}

/// `hkdf::Hkdf::<Sha256>::new` and `expand`: HKDF with the salt given, expanded to 32 bytes, a
/// length that `expand` never refuses.
#[verifier::external_body]
pub(crate) fn hkdf_sha256_expand(ikm: &[u8], salt: &[u8], info: &[u8]) -> (okm: [u8; 32])
    ensures
        okm@ == hkdf_sha256(ikm@, salt@, info@),
{
    let mut okm = [0u8; 32];
    Hkdf::<Sha256>::new(Some(salt), ikm).expand(info, &mut okm).expect("32 bytes are allowed");
    okm
}

/// `aes_gcm::Aes256Gcm::encrypt`: it fails on a plaintext or associated data above 2^36 bytes and
/// on nothing else; else it gives the ciphertext, 16 bytes longer than the plaintext, from which
/// the same key, nonce and associated data give the plaintext back. One buffer holds the
/// ciphertext, so it has to fit in one allocation.
#[verifier::external_body]
pub(crate) fn aes256gcm_encrypt(
    key: &[u8; 32],
    nonce: &[u8; 12],
    plaintext: &[u8],
    aad: &[u8],
) -> (r: Result<Vec<u8>, aes_gcm::Error>)
    requires
        plaintext@.len() + 16 <= isize::MAX,
    ensures
        r is Ok == (plaintext@.len() <= GCM_MAX && aad@.len() <= GCM_MAX),
        r matches Ok(c) ==> c@ == aes256gcm_seal(key@, nonce@, plaintext@, aad@),
        r matches Ok(c) ==> c@.len() == plaintext@.len() + 16,
        r matches Ok(c) ==> aes256gcm_open(key@, nonce@, c@, aad@) == Some(plaintext@),
{
    Aes256Gcm::new(key.into()).encrypt(nonce.into(), Payload { msg: plaintext, aad })
}

/// `aes_gcm::Aes256Gcm::decrypt`: the plaintext, 16 bytes shorter than the ciphertext, or an error
/// where the tag does not fit the key, the nonce, the ciphertext and the associated data.
#[verifier::external_body]
pub(crate) fn aes256gcm_decrypt(
    key: &[u8; 32],
    nonce: &[u8; 12],
    ciphertext: &[u8],
    aad: &[u8],
) -> (r: Result<Vec<u8>, aes_gcm::Error>)
    ensures
        match r {
            Ok(p) => aes256gcm_open(key@, nonce@, ciphertext@, aad@) == Some(p@) && p@.len() + 16
                == ciphertext@.len(),
            Err(_) => aes256gcm_open(key@, nonce@, ciphertext@, aad@) is None,
        },
{
    Aes256Gcm::new(key.into()).decrypt(nonce.into(), Payload { msg: ciphertext, aad })
}

/// `base64::Engine::encode` with the engine `STANDARD`: four characters for every three bytes
/// begun, all of them letters, digits, `+`, `/` or `=`, which decode to the bytes they were made
/// of. The text has to fit in one allocation.
#[verifier::external_body]
pub(crate) fn base64_text(bytes: &[u8]) -> (text: String)
    requires
        (bytes@.len() + 2) / 3 * 4 <= isize::MAX,
    ensures
        text@ == base64_encode(bytes@),
        base64_decode(text@) == Some(bytes@),
        text@.len() == (bytes@.len() + 2) / 3 * 4,
        forall|i: int| 0 <= i < text@.len() ==> '+' <= #[trigger] text@[i] <= 'z',
{
    STANDARD.encode(bytes)
}

/// `base64::Engine::decode` with the engine `STANDARD`, which takes the canonical encoding alone:
/// the bytes that come out encode to the text that went in.
#[verifier::external_body]
pub(crate) fn base64_bytes(text: &str) -> (r: Result<Vec<u8>, base64::DecodeError>)
    ensures
        match r {
            Ok(bytes) => base64_decode(text@) == Some(bytes@) && base64_encode(bytes@) == text@,
            Err(_) => base64_decode(text@) is None,
        },
{
    STANDARD.decode(text)
}

/// `x25519_dalek::StaticSecret::random_from_rng` with `rand::rngs::OsRng`: 32 bytes from the
/// operating system. Nothing is claimed of them. Where the operating system has none to give, the
/// call panics.
#[verifier::external_body]
pub(crate) fn x25519_random_secret() -> (secret: [u8; 32]) {
    StaticSecret::random_from_rng(OsRng).to_bytes()
}

/// `x25519_dalek::PublicKey::from` a secret key. Key agreement commutes: whoever holds another
/// secret key gets from this public key what this secret key gets from theirs.
#[verifier::external_body]
pub(crate) fn x25519_public_key(secret: &[u8; 32]) -> (public: [u8; 32])
    ensures
        public@ == x25519_public(secret@),
        forall|other: Seq<u8>|
            other.len() == 32 ==> #[trigger] x25519_shared(other, public@) == x25519_shared(
                secret@,
                x25519_public(other),
            ),
{
    X25519PublicKey::from(&StaticSecret::from(*secret)).to_bytes()
}

/// `x25519_dalek::StaticSecret::diffie_hellman`: the shared secret of a secret key and another's
/// public key.
#[verifier::external_body]
pub(crate) fn x25519_diffie_hellman(secret: &[u8; 32], public: &[u8; 32]) -> (shared: [u8; 32])
    ensures
        shared@ == x25519_shared(secret@, public@),
{
    StaticSecret::from(*secret).diffie_hellman(&X25519PublicKey::from(*public)).to_bytes()
}

/// `rand::RngCore::fill_bytes` with `rand::rngs::OsRng`: 12 bytes from the operating system.
/// Nothing is claimed of them. Where the operating system has none to give, the call panics.
#[verifier::external_body]
pub(crate) fn random_nonce() -> (nonce: [u8; 12]) {
    let mut nonce = [0u8; 12];
    OsRng.fill_bytes(&mut nonce);
    nonce
}

} // verus!
