//! Sealed payloads: AES-256-GCM under a key of the session, carried in base64.
use crate::crypto::error::CryptoError;
use crate::crypto::keys::KEY_LEN;
use crate::crypto::primitives;
use vstd::prelude::*;
use vstd::string::*;

verus! {

/// The length of a nonce in bytes.
pub const NONCE_LEN: usize = 12;

/// A sealed payload as it is sent.
#[derive(Debug, Clone, PartialEq, Eq)]
pub struct EncryptedPayload {
    pub nonce_b64: String,
    pub ciphertext_b64: String,
}

/// A sealed payload in the abstract.
pub struct SealedPayload {
    pub nonce: Seq<char>,
    pub ciphertext: Seq<char>,
}

impl View for EncryptedPayload {
    type V = SealedPayload;

    open spec fn view(&self) -> SealedPayload {
        SealedPayload { nonce: self.nonce_b64@, ciphertext: self.ciphertext_b64@ }
    }
}

/// Whether a plaintext of `n` bytes can be sealed: the cipher takes it, and the text that carries
/// the ciphertext can be held.
pub open spec fn sealable(n: nat) -> bool {
    n <= primitives::GCM_MAX && (n + 18) / 3 * 4 <= isize::MAX
}

/// The payload that sealing under a given nonce makes.
pub open spec fn sealed(
    key: Seq<u8>,
    nonce: Seq<u8>,
    plaintext: Seq<u8>,
    aad: Seq<u8>,
) -> Result<SealedPayload, CryptoError> {
    if sealable(plaintext.len()) && aad.len() <= primitives::GCM_MAX {
        Ok(
            SealedPayload {
                nonce: primitives::base64_encode(nonce),
                ciphertext: primitives::base64_encode(
                    primitives::aes256gcm_seal(key, nonce, plaintext, aad),
                ),
            },
        )
    } else {
        Err(CryptoError::Encrypt)
    }
}

/// What opening a payload gives.
pub open spec fn opened(key: Seq<u8>, payload: SealedPayload, aad: Seq<u8>) -> Result<
    Seq<u8>,
    CryptoError,
> {
    match primitives::base64_decode(payload.nonce) {
        None => Err(CryptoError::InvalidCiphertext),
        Some(nonce) => if nonce.len() != 12 {
            Err(CryptoError::InvalidCiphertext)
        } else {
            match primitives::base64_decode(payload.ciphertext) {
                None => Err(CryptoError::InvalidCiphertext),
                Some(ciphertext) => match primitives::aes256gcm_open(key, nonce, ciphertext, aad) {
                    Some(plaintext) => Ok(plaintext),
                    None => Err(CryptoError::Decrypt),
                },
            }
        },
    }
}

/// Whether a payload is one that sealing a plaintext made, under some nonce, and that gives the
/// plaintext back.
pub open spec fn seals(
    key: Seq<u8>,
    aad: Seq<u8>,
    plaintext: Seq<u8>,
    payload: SealedPayload,
) -> bool {
    &&& exists|nonce: Seq<u8>|
        nonce.len() == 12 && #[trigger] sealed(key, nonce, plaintext, aad) == Ok::<
            SealedPayload,
            CryptoError,
        >(payload)
    &&& opened(key, payload, aad) == Ok::<Seq<u8>, CryptoError>(plaintext)
}

/// The nonce made of the bytes given: 12 of them.
pub fn nonce_of(bytes: &[u8]) -> (r: Result<[u8; NONCE_LEN], CryptoError>)
    ensures
        match r {
            Ok(nonce) => nonce@ == bytes@ && bytes@.len() == 12,
            Err(e) => e == CryptoError::InvalidCiphertext && bytes@.len() != 12,
        },
{
    if bytes.len() != NONCE_LEN {
        return Err(CryptoError::InvalidCiphertext);
    }
    let mut r = [0u8; NONCE_LEN];
    let mut i: usize = 0;
    while i < NONCE_LEN
        invariant
            i <= 12,
            bytes@.len() == 12,
            forall|j: int| 0 <= j < i ==> r@[j] == bytes@[j],
        decreases 12 - i,
    {
        r[i] = bytes[i];
        i = i + 1;
    }
    assert(r@ =~= bytes@);
    Ok(r)
}

/// Seals a plaintext under a key and a nonce.
pub fn aead_encrypt_with(
    key: &[u8; KEY_LEN],
    nonce: &[u8; NONCE_LEN],
    plaintext: &[u8],
    aad: &[u8],
) -> (r: Result<EncryptedPayload, CryptoError>)
    ensures
        match r {
            Ok(payload) => sealed(key@, nonce@, plaintext@, aad@) == Ok::<
                SealedPayload,
                CryptoError,
            >(payload@) && seals(key@, aad@, plaintext@, payload@),
            Err(e) => sealed(key@, nonce@, plaintext@, aad@) == Err::<SealedPayload, CryptoError>(
                e,
            ),
        },
{
    if plaintext.len() as u64 > primitives::GCM_MAX || plaintext.len() > isize::MAX as usize / 4 * 3
        - 16 {
        return Err(CryptoError::Encrypt);
    }
    match primitives::aes256gcm_encrypt(key, nonce, plaintext, aad) {
        Ok(ciphertext) => {
            let nonce_b64 = primitives::base64_text(nonce);
            let ciphertext_b64 = primitives::base64_text(ciphertext.as_slice());
            Ok(EncryptedPayload { nonce_b64, ciphertext_b64 })
        },
        Err(_) => Err(CryptoError::Encrypt),
    }
}

/// Seals a plaintext under a key and a nonce drawn for it. It fails only where the plaintext or
/// the associated data is too long.
pub fn aead_encrypt(key: &[u8; KEY_LEN], plaintext: &[u8], aad: &[u8]) -> (r: Result<
    EncryptedPayload,
    CryptoError,
>)
    ensures
        match r {
            Ok(payload) => seals(key@, aad@, plaintext@, payload@) && sealable(plaintext@.len())
                && aad@.len() <= primitives::GCM_MAX,
            Err(e) => e == CryptoError::Encrypt && !(sealable(plaintext@.len()) && aad@.len()
                <= primitives::GCM_MAX),
        },
{
    let nonce = primitives::random_nonce();
    aead_encrypt_with(key, &nonce, plaintext, aad)
}

/// Opens a sealed payload.
pub fn aead_decrypt(key: &[u8; KEY_LEN], payload: &EncryptedPayload, aad: &[u8]) -> (r: Result<
    Vec<u8>,
    CryptoError,
>)
    ensures
        match r {
            Ok(plaintext) => opened(key@, payload@, aad@) == Ok::<Seq<u8>, CryptoError>(
                plaintext@,
            ) && plaintext@.len() + 16 == primitives::base64_decode(payload@.ciphertext)->0.len(),
            Err(e) => opened(key@, payload@, aad@) == Err::<Seq<u8>, CryptoError>(e),
        },
{
    let nonce_bytes = match primitives::base64_bytes(payload.nonce_b64.as_str()) {
        Ok(bytes) => bytes,
        Err(_) => return Err(CryptoError::InvalidCiphertext),
    };
    let nonce = match nonce_of(nonce_bytes.as_slice()) {
        Ok(nonce) => nonce,
        Err(e) => return Err(e),
    };
    let ciphertext = match primitives::base64_bytes(payload.ciphertext_b64.as_str()) {
        Ok(bytes) => bytes,
        Err(_) => return Err(CryptoError::InvalidCiphertext),
    };
    match primitives::aes256gcm_decrypt(key, &nonce, ciphertext.as_slice(), aad) {
        Ok(plaintext) => Ok(plaintext),
        Err(_) => Err(CryptoError::Decrypt),
    }
}

/// Everything of up to 2^30 bytes can be sealed, with a label of as much.
pub proof fn law_what_can_be_sealed(key: Seq<u8>, nonce: Seq<u8>, plaintext: Seq<u8>, aad: Seq<u8>)
    requires
        plaintext.len() <= 0x4000_0000,
        aad.len() <= 0x4000_0000,
    ensures
        sealable(plaintext.len()),
        sealed(key, nonce, plaintext, aad) is Ok,
{
}

/// How a payload opens: as malformed where its nonce is not 12 bytes in base64 or its ciphertext is
/// not in base64, and otherwise to what the cipher makes of it, if the tag is right.
pub proof fn law_how_payloads_open(
    key: Seq<u8>,
    payload: SealedPayload,
    aad: Seq<u8>,
    nonce: Seq<u8>,
    ciphertext: Seq<u8>,
)
    ensures
        primitives::base64_decode(payload.nonce) is None || primitives::base64_decode(
            payload.ciphertext,
        ) is None ==> opened(key, payload, aad) == Err::<Seq<u8>, CryptoError>(
            CryptoError::InvalidCiphertext,
        ),
        primitives::base64_decode(payload.nonce) == Some(nonce) && nonce.len() != 12 ==> opened(
            key,
            payload,
            aad,
        ) == Err::<Seq<u8>, CryptoError>(CryptoError::InvalidCiphertext),
        primitives::base64_decode(payload.nonce) == Some(nonce) && nonce.len() == 12
            && primitives::base64_decode(payload.ciphertext) == Some(ciphertext) ==> opened(
            key,
            payload,
            aad,
        ) == match primitives::aes256gcm_open(key, nonce, ciphertext, aad) {
            Some(plaintext) => Ok::<Seq<u8>, CryptoError>(plaintext),
            None => Err(CryptoError::Decrypt),
        },
{
}

} // verus!
