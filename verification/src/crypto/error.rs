//! What can go wrong in the session crypto.
use vstd::prelude::*;
use vstd::string::*;

verus! {

/// Why a key, a message or a handshake was refused.
#[derive(Debug)]
pub enum CryptoError {
    InvalidPublicKey,
    InvalidCiphertext,
    Encrypt,
    Decrypt,
    HandshakeProof,
    Ratchet(&'static str),
    SkippedKeysOverflow,
}

impl CryptoError {
    /// What an error says to its reader.
    pub open spec fn text(self) -> Seq<char> {
        match self {
            CryptoError::InvalidPublicKey => "invalid public key encoding"@,
            CryptoError::InvalidCiphertext => "invalid ciphertext encoding"@,
            CryptoError::Encrypt => "encryption failed"@,
            CryptoError::Decrypt => "decryption failed (tampered or wrong key)"@,
            CryptoError::HandshakeProof => "handshake proof mismatch"@,
            CryptoError::Ratchet(what) => "ratchet state error: "@ + what@,
            CryptoError::SkippedKeysOverflow => "too many skipped message keys"@,
        }
    }

    /// The error as a sentence.
    pub fn message(&self) -> (r: String)
        ensures
            r@ == self.text(),
    {
        match self {
            CryptoError::InvalidPublicKey => "invalid public key encoding".to_owned(),
            CryptoError::InvalidCiphertext => "invalid ciphertext encoding".to_owned(),
            CryptoError::Encrypt => "encryption failed".to_owned(),
            CryptoError::Decrypt => "decryption failed (tampered or wrong key)".to_owned(),
            CryptoError::HandshakeProof => "handshake proof mismatch".to_owned(),
            CryptoError::Ratchet(what) => {
                let mut s = "ratchet state error: ".to_owned();
                s.append(what);
                s
            },
            CryptoError::SkippedKeysOverflow => "too many skipped message keys".to_owned(),
        }
    }
}

} // verus!
