//! The cryptography of a session: a handshake with proofs, then a double ratchet over AES-256-GCM.
//! Peers are trusted by safety numbers that their users compare.
pub mod aead;
pub mod conversation;
pub mod error;
pub mod handshake;
pub mod kdf;
pub mod keys;
pub mod primitives;
pub mod ratchet;
pub mod replay;
pub mod skipped;
pub mod trust;

pub use aead::{aead_decrypt, aead_encrypt, EncryptedPayload};
pub use error::CryptoError;
pub use handshake::{
    handshake_transcript, HandshakeAccept, HandshakeInitiator, HandshakeOffer, HandshakeResponder,
};
pub use kdf::{hkdf_expand, kdf_ck, kdf_rk};
pub use keys::{parse_public_key, Identity, PublicKey, PUBLIC_KEY_LEN};
pub use ratchet::{header_aad, RatchetHeader, RatchetMessage, SecureSession, SendMark};
pub use trust::{safety_number, ContactBook, TrustState, TrustedContact};
