//! Key pairs and public keys.
use crate::crypto::error::CryptoError;
use crate::crypto::primitives;
use crate::text;
use vstd::prelude::*;
use vstd::string::*;
use vstd::utf8::*;

verus! {

/// The length of a public key in bytes.
pub const PUBLIC_KEY_LEN: usize = 32;

/// The length of a key of the session in bytes.
pub const KEY_LEN: usize = 32;

/// A key pair in the abstract.
pub struct KeyPair {
    pub secret: Seq<u8>,
    pub public: Seq<u8>,
}

impl KeyPair {
    /// The public key belongs to the secret key, so that key agreement with it works: what another
    /// secret key makes of the public key, the secret key makes of the other's public key.
    pub open spec fn valid(self) -> bool {
        &&& self.secret.len() == 32
        &&& self.public.len() == 32
        &&& self.public == primitives::x25519_public(self.secret)
        &&& forall|other: Seq<u8>|
            other.len() == 32 ==> #[trigger] primitives::x25519_shared(other, self.public)
                == primitives::x25519_shared(self.secret, primitives::x25519_public(other))
    }

    /// What the pair and another's public key agree on.
    pub open spec fn shared(self, public: Seq<u8>) -> Seq<u8> {
        primitives::x25519_shared(self.secret, public)
    }

    /// The public key as it is sent.
    pub open spec fn text(self) -> Seq<char> {
        key_text(self.public)
    }
}

/// A public key as it is sent: in base64.
pub open spec fn key_text(public: Seq<u8>) -> Seq<char> {
    primitives::base64_encode(public)
}

/// What the text of a public key looks like: 44 characters of ASCII with no white space around
/// them.
pub open spec fn spelled(text: Seq<char>) -> bool {
    &&& text.len() == 44
    &&& is_ascii_chars(text)
    &&& text::trimmed(text) == text
}

/// The public key that a text stands for: 32 bytes in base64.
pub open spec fn parse_key(text: Seq<char>) -> Result<Seq<u8>, CryptoError> {
    match primitives::base64_decode(text) {
        Some(bytes) => if bytes.len() == 32 {
            Ok(bytes)
        } else {
            Err(CryptoError::InvalidPublicKey)
        },
        None => Err(CryptoError::InvalidPublicKey),
    }
}

/// Two valid key pairs agree on the same secret, whichever side computes it.
pub proof fn lemma_key_agreement(a: KeyPair, b: KeyPair)
    requires
        a.valid(),
        b.valid(),
    ensures
        a.shared(b.public) == b.shared(a.public),
{
    assert(primitives::x25519_shared(a.secret, b.public) == primitives::x25519_shared(
        b.secret,
        primitives::x25519_public(a.secret),
    ));
}

/// The public half of a key pair.
#[derive(Clone, Copy, Debug, PartialEq, Eq)]
pub struct PublicKey {
    bytes: [u8; 32],
}

impl View for PublicKey {
    type V = Seq<u8>;

    closed spec fn view(&self) -> Seq<u8> {
        self.bytes@
    }
}

impl PublicKey {
    /// The public key made of the bytes given: any 32 bytes are one, and no other number of bytes
    /// is.
    pub fn from_slice(bytes: &[u8]) -> (r: Result<PublicKey, CryptoError>)
        ensures
            match r {
                Ok(key) => key@ == bytes@ && bytes@.len() == 32,
                Err(e) => e == CryptoError::InvalidPublicKey && bytes@.len() != 32,
            },
    {
        if bytes.len() != PUBLIC_KEY_LEN {
            return Err(CryptoError::InvalidPublicKey);
        }
        Ok(PublicKey { bytes: array32(bytes) })
    }

    /// The bytes of the key.
    pub fn to_bytes(&self) -> (bytes: [u8; PUBLIC_KEY_LEN])
        ensures
            bytes@ == self@,
            self@.len() == 32,
    {
        self.bytes
    }
}

/// A public key as it is sent.
pub fn pk_b64(key: &PublicKey) -> (text: String)
    ensures
        text@ == key_text(key@),
        parse_key(text@) == Ok::<Seq<u8>, CryptoError>(key@),
        spelled(text@),
{
    let text = primitives::base64_text(&key.bytes);
    proof {
        text::lemma_trimmed_same(text@);
    }
    text
}

/// A text in ASCII has as many bytes as characters.
pub proof fn lemma_ascii_len(s: Seq<char>)
    requires
        is_ascii_chars(s),
    ensures
        encode_utf8(s).len() == s.len(),
{
    is_ascii_chars_encode_utf8(s);
}

/// Copies 32 bytes into an array.
pub(crate) fn array32(bytes: &[u8]) -> (r: [u8; 32])
    requires
        bytes@.len() == 32,
    ensures
        r@ == bytes@,
{
    let mut r = [0u8; 32];
    let mut i: usize = 0;
    while i < 32
        invariant
            i <= 32,
            bytes@.len() == 32,
            forall|j: int| 0 <= j < i ==> r@[j] == bytes@[j],
        decreases 32 - i,
    {
        r[i] = bytes[i];
        i = i + 1;
    }
    assert(r@ =~= bytes@);
    r
}

/// Reads a public key: 32 bytes in canonical base64.
pub fn parse_public_key(b64: &str) -> (r: Result<PublicKey, CryptoError>)
    ensures
        match r {
            Ok(key) => parse_key(b64@) == Ok::<Seq<u8>, CryptoError>(key@) && key_text(key@)
                == b64@,
            Err(e) => parse_key(b64@) == Err::<Seq<u8>, CryptoError>(e),
        },
{
    match primitives::base64_bytes(b64) {
        Ok(bytes) => PublicKey::from_slice(bytes.as_slice()),
        Err(_) => Err(CryptoError::InvalidPublicKey),
    }
}

/// A key pair: an identity of a peer, or an ephemeral key.
pub struct Identity {
    secret: [u8; 32],
    public: PublicKey,
}

impl View for Identity {
    type V = KeyPair;

    closed spec fn view(&self) -> KeyPair {
        KeyPair { secret: self.secret@, public: self.public@ }
    }
}

impl Clone for Identity {
    fn clone(&self) -> (r: Identity)
        ensures
            r@ == self@,
    {
        proof {
            use_type_invariant(self);
        }
        Identity { secret: self.secret, public: self.public }
    }
}

impl Identity {
    /// The public key belongs to the secret key.
    #[verifier::type_invariant]
    pub open spec fn wf(self) -> bool {
        self@.valid()
    }

    /// Draws a new key pair.
    pub fn generate() -> (r: Identity)
        ensures
            r@.valid(),
    {
        let secret = primitives::x25519_random_secret();
        Identity::from_secret(secret)
    }

    /// The key pair of a secret key.
    pub fn from_secret(secret: [u8; KEY_LEN]) -> (r: Identity)
        ensures
            r@.valid(),
            r@.secret == secret@,
            r@.public == primitives::x25519_public(secret@),
    {
        let public = PublicKey { bytes: primitives::x25519_public_key(&secret) };
        Identity { secret, public }
    }

    /// The bytes of the public key.
    pub fn public_key_bytes(&self) -> (bytes: [u8; PUBLIC_KEY_LEN])
        ensures
            bytes@ == self@.public,
    {
        self.public.to_bytes()
    }

    /// The public key as it is sent.
    pub fn public_key_b64(&self) -> (text: String)
        ensures
            text@ == self@.text(),
            parse_key(text@) == Ok::<Seq<u8>, CryptoError>(self@.public),
            spelled(text@),
            self@.valid(),
    {
        proof {
            use_type_invariant(self);
        }
        pk_b64(&self.public)
    }

    /// The public key.
    pub fn public_key(&self) -> (key: PublicKey)
        ensures
            key@ == self@.public,
            self@.valid(),
    {
        proof {
            use_type_invariant(self);
        }
        self.public
    }

    /// What this key pair and another's public key agree on.
    pub fn dh(&self, peer: &PublicKey) -> (shared: [u8; 32])
        ensures
            shared@ == self@.shared(peer@),
    {
        primitives::x25519_diffie_hellman(&self.secret, &peer.bytes)
    }
}

} // verus!
