//! The handshake in which two peers prove to each other who they are and agree on a session.
//!
//! Each side holds an identity and draws an ephemeral key. The initiator knows the responder's
//! identity beforehand. Both prove that they hold their secret keys by sealing the transcript
//! under a key that only the two of them can derive.
use crate::crypto::aead;
use crate::crypto::aead::{EncryptedPayload, SealedPayload, NONCE_LEN};
use crate::crypto::conversation;
use crate::crypto::error::CryptoError;
use crate::crypto::kdf;
use crate::crypto::keys;
use crate::crypto::keys::{Identity, KeyPair, KEY_LEN};
use crate::crypto::primitives;
use crate::crypto::ratchet;
use crate::crypto::ratchet::{RatchetState, SecureSession, SessionState};
use crate::text;
use vstd::prelude::*;
use vstd::string::*;
use vstd::utf8::*;

verus! {

/// What the initiator sends.
#[derive(Debug, Clone)]
pub struct HandshakeOffer {
    pub identity_public_key_b64: String,
    pub ephemeral_public_key_b64: String,
    pub listen_url: String,
    pub proof: EncryptedPayload,
}

/// An offer in the abstract.
pub struct Offer {
    pub identity: Seq<char>,
    pub ephemeral: Seq<char>,
    pub listen_url: Seq<char>,
    pub proof: SealedPayload,
}

impl View for HandshakeOffer {
    type V = Offer;

    open spec fn view(&self) -> Offer {
        Offer {
            identity: self.identity_public_key_b64@,
            ephemeral: self.ephemeral_public_key_b64@,
            listen_url: self.listen_url@,
            proof: self.proof@,
        }
    }
}

/// What the responder answers.
#[derive(Debug, Clone)]
pub struct HandshakeAccept {
    pub identity_public_key_b64: String,
    pub ephemeral_public_key_b64: String,
    pub proof: EncryptedPayload,
}

/// An answer in the abstract.
pub struct Accept {
    pub identity: Seq<char>,
    pub ephemeral: Seq<char>,
    pub proof: SealedPayload,
}

impl View for HandshakeAccept {
    type V = Accept;

    open spec fn view(&self) -> Accept {
        Accept {
            identity: self.identity_public_key_b64@,
            ephemeral: self.ephemeral_public_key_b64@,
            proof: self.proof@,
        }
    }
}

/// The text that both sides prove to have seen.
pub open spec fn transcript_text(
    initiator_ik: Seq<char>,
    responder_ik: Seq<char>,
    initiator_ek: Seq<char>,
    listen_url: Seq<char>,
) -> Seq<char> {
    "p2p-chat-handshake-v2|"@ + initiator_ik + "|"@ + responder_ik + "|"@ + initiator_ek + "|"@
        + listen_url
}

/// The bytes that both sides prove to have seen.
pub open spec fn transcript(
    initiator_ik: Seq<char>,
    responder_ik: Seq<char>,
    initiator_ek: Seq<char>,
    listen_url: Seq<char>,
) -> Seq<u8> {
    encode_utf8(transcript_text(initiator_ik, responder_ik, initiator_ek, listen_url))
}

/// How long a transcript is, of which an initiator's keys are a part.
pub open spec fn transcript_len(responder_ik: Seq<char>, listen_url: Seq<char>) -> nat {
    113 + encode_utf8(responder_ik).len() + encode_utf8(listen_url).len()
}

proof fn lemma_transcript_len(
    initiator_ik: Seq<char>,
    responder_ik: Seq<char>,
    initiator_ek: Seq<char>,
    listen_url: Seq<char>,
)
    requires
        keys::spelled(initiator_ik),
        keys::spelled(initiator_ek),
    ensures
        transcript(initiator_ik, responder_ik, initiator_ek, listen_url).len() == transcript_len(
            responder_ik,
            listen_url,
        ),
{
    reveal_strlit("p2p-chat-handshake-v2|");
    reveal_strlit("|");
    let a = "p2p-chat-handshake-v2|"@ + initiator_ik + "|"@;
    let b = "|"@ + initiator_ek + "|"@;
    assert(transcript_text(initiator_ik, responder_ik, initiator_ek, listen_url) =~= a + (
    responder_ik + (b + listen_url)));
    text::lemma_utf8_joins(a, responder_ik + (b + listen_url));
    text::lemma_utf8_joins(responder_ik, b + listen_url);
    text::lemma_utf8_joins(b, listen_url);
    keys::lemma_ascii_len(a);
    keys::lemma_ascii_len(b);
}

/// A transcript binds all four of its values: two transcripts are the same only where the keys and
/// the URL are.
pub proof fn law_transcript_binds_its_values(
    a: (Seq<char>, Seq<char>, Seq<char>, Seq<char>),
    b: (Seq<char>, Seq<char>, Seq<char>, Seq<char>),
)
    requires
        keys::spelled(a.0) && keys::spelled(a.1) && keys::spelled(a.2),
        keys::spelled(b.0) && keys::spelled(b.1) && keys::spelled(b.2),
        transcript(a.0, a.1, a.2, a.3) == transcript(b.0, b.1, b.2, b.3),
    ensures
        a == b,
{
    reveal_strlit("p2p-chat-handshake-v2|");
    reveal_strlit("|");
    let s = transcript_text(a.0, a.1, a.2, a.3);
    let t = transcript_text(b.0, b.1, b.2, b.3);
    encode_utf8_decode_utf8(s);
    encode_utf8_decode_utf8(t);
    assert(a.0 =~= s.subrange(22, 66) && b.0 =~= t.subrange(22, 66));
    assert(a.1 =~= s.subrange(67, 111) && b.1 =~= t.subrange(67, 111));
    assert(a.2 =~= s.subrange(112, 156) && b.2 =~= t.subrange(112, 156));
    assert(a.3 =~= s.skip(157) && b.3 =~= t.skip(157));
}

/// The bytes that both sides prove to have seen.
pub fn handshake_transcript(
    initiator_ik_b64: &str,
    responder_ik_b64: &str,
    initiator_ek_b64: &str,
    listen_url: &str,
) -> (r: Vec<u8>)
    ensures
        r@ == transcript(initiator_ik_b64@, responder_ik_b64@, initiator_ek_b64@, listen_url@),
{
    let mut s = "p2p-chat-handshake-v2|".to_owned();
    s.append(initiator_ik_b64);
    s.append("|");
    s.append(responder_ik_b64);
    s.append("|");
    s.append(initiator_ek_b64);
    s.append("|");
    s.append(listen_url);
    s.as_str().as_bytes_vec()
}

/// A key of the handshake.
pub open spec fn handshake_key(ikm: Seq<u8>, label: Seq<char>) -> Seq<u8> {
    kdf::derived(ikm, "secure-p2p-chat-hs-v2"@, label)
}

fn derive_handshake_key(ikm: &[u8], label: &str) -> (key: [u8; KEY_LEN])
    ensures
        key@ == handshake_key(ikm@, label@),
{
    kdf::derive(ikm, "secure-p2p-chat-hs-v2", label)
}

/// The keys that a session starts with.
pub struct HandshakeKeys {
    pub root: Seq<u8>,
    pub auth: Seq<u8>,
    pub accept_proof: Seq<u8>,
}

/// The keys that the agreed secrets of a whole handshake give.
pub open spec fn session_keys(root_seed: Seq<u8>, ee: Seq<u8>, se: Seq<u8>) -> HandshakeKeys {
    let ikm = root_seed + ee + se;
    HandshakeKeys {
        root: handshake_key(ikm, "session-root"@),
        auth: handshake_key(ikm, "session-auth"@),
        accept_proof: handshake_key(ikm, "accept-proof"@),
    }
}

/// The keys for the session, for what is sealed under it, and for the proof in the answer.
fn derive_session_keys(root_seed: &[u8; KEY_LEN], ee: &[u8; 32], se: &[u8; 32]) -> (r: (
    [u8; KEY_LEN],
    [u8; KEY_LEN],
    [u8; KEY_LEN],
))
    ensures
        r.0@ == session_keys(root_seed@, ee@, se@).root,
        r.1@ == session_keys(root_seed@, ee@, se@).auth,
        r.2@ == session_keys(root_seed@, ee@, se@).accept_proof,
{
    let front = kdf::joined(root_seed, ee);
    let ikm = kdf::joined(front.as_slice(), se);
    (
        derive_handshake_key(ikm.as_slice(), "session-root"),
        derive_handshake_key(ikm.as_slice(), "session-auth"),
        derive_handshake_key(ikm.as_slice(), "accept-proof"),
    )
}

/// What an initiator remembers of its offer.
pub struct InitiatorState {
    pub identity: KeyPair,
    pub ephemeral: KeyPair,
    pub responder: Seq<char>,
    pub listen_url: Seq<char>,
    pub root_seed: Seq<u8>,
}

impl InitiatorState {
    /// What the initiator expects the responder to have seen.
    pub open spec fn transcript(self) -> Seq<u8> {
        transcript(self.identity.text(), self.responder, self.ephemeral.text(), self.listen_url)
    }
}

/// The label of the proof in an offer.
pub open spec fn offer_label() -> Seq<u8> {
    encode_utf8("hs-offer"@)
}

/// The label of the proof in an answer.
pub open spec fn accept_label() -> Seq<u8> {
    encode_utf8("hs-accept"@)
}

/// What making an offer comes to, given the ephemeral key and the nonce drawn for it.
pub open spec fn offered(
    identity: KeyPair,
    responder: Seq<char>,
    listen_url: Seq<char>,
    ephemeral: KeyPair,
    nonce: Seq<u8>,
) -> Result<(InitiatorState, Offer), CryptoError> {
    match keys::parse_key(responder) {
        Err(e) => Err(e),
        Ok(responder_ik) => {
            let ikm = identity.shared(responder_ik) + ephemeral.shared(responder_ik);
            let state = InitiatorState {
                identity,
                ephemeral,
                responder,
                listen_url,
                root_seed: handshake_key(ikm, "root-seed"@),
            };
            match aead::sealed(
                handshake_key(ikm, "proof-key"@),
                nonce,
                state.transcript(),
                offer_label(),
            ) {
                Err(e) => Err(e),
                Ok(proof) => Ok(
                    (
                        state,
                        Offer {
                            identity: identity.text(),
                            ephemeral: ephemeral.text(),
                            listen_url,
                            proof,
                        },
                    ),
                ),
            }
        },
    }
}

/// Whether an offer is one that this identity made: it holds the keys, and its proof opens to the
/// transcript.
pub open spec fn offers(state: InitiatorState, offer: Offer) -> bool {
    &&& state.identity.valid()
    &&& state.ephemeral.valid()
    &&& offer.identity == state.identity.text()
    &&& offer.ephemeral == state.ephemeral.text()
    &&& offer.listen_url == state.listen_url
    &&& keys::spelled(offer.identity)
    &&& keys::spelled(offer.ephemeral)
    &&& keys::parse_key(offer.identity) == Ok::<Seq<u8>, CryptoError>(state.identity.public)
    &&& keys::parse_key(offer.ephemeral) == Ok::<Seq<u8>, CryptoError>(state.ephemeral.public)
    &&& keys::parse_key(state.responder) matches Ok(responder_ik) && {
        let ikm = state.identity.shared(responder_ik) + state.ephemeral.shared(responder_ik);
        &&& state.root_seed == handshake_key(ikm, "root-seed"@)
        &&& aead::opened(handshake_key(ikm, "proof-key"@), offer.proof, offer_label()) == Ok::<
            Seq<u8>,
            CryptoError,
        >(state.transcript())
    }
}

/// Whether making an offer came to `outcome`.
pub open spec fn offered_as(
    outcome: Result<(InitiatorState, Offer), CryptoError>,
    r: Result<(HandshakeInitiator, HandshakeOffer), CryptoError>,
) -> bool {
    match r {
        Ok((state, offer)) => outcome == Ok::<(InitiatorState, Offer), CryptoError>(
            (state@, offer@),
        ) && offers(state@, offer@),
        Err(e) => outcome == Err::<(InitiatorState, Offer), CryptoError>(e),
    }
}

/// The first state of the initiator's ratchet: with a sending chain.
pub open spec fn initiator_ratchet(
    ephemeral: KeyPair,
    responder_ek: Seq<u8>,
    root: Seq<u8>,
) -> RatchetState {
    let ee = ephemeral.shared(responder_ek);
    RatchetState {
        dhs: Some(ephemeral),
        used: Seq::empty(),
        dhr: Some(responder_ek),
        rk: kdf::next_root_key(root, ee),
        cks: Some(kdf::first_chain_key(root, ee)),
        ckr: None,
        ns: 0,
        nr: 0,
        pn: 0,
        skipped: Map::empty(),
    }
}

/// The first state of the responder's ratchet: with a receiving chain.
pub open spec fn responder_ratchet(
    ephemeral: KeyPair,
    initiator_ek: Seq<u8>,
    root: Seq<u8>,
) -> RatchetState {
    let ee = ephemeral.shared(initiator_ek);
    RatchetState {
        dhs: Some(ephemeral),
        used: Seq::empty(),
        dhr: Some(initiator_ek),
        rk: kdf::next_root_key(root, ee),
        cks: None,
        ckr: Some(kdf::first_chain_key(root, ee)),
        ns: 0,
        nr: 0,
        pn: 0,
        skipped: Map::empty(),
    }
}

/// What finishing a handshake with an answer comes to.
pub open spec fn finished(s: InitiatorState, accept: Accept) -> Result<SessionState, CryptoError> {
    if accept.identity != s.responder {
        Err(CryptoError::HandshakeProof)
    } else {
        match keys::parse_key(accept.ephemeral) {
            Err(e) => Err(e),
            Ok(responder_ek) => {
                let keys = session_keys(
                    s.root_seed,
                    s.ephemeral.shared(responder_ek),
                    s.identity.shared(responder_ek),
                );
                match aead::opened(keys.accept_proof, accept.proof, accept_label()) {
                    Err(e) => Err(e),
                    Ok(proved) => if proved != s.transcript() {
                        Err(CryptoError::HandshakeProof)
                    } else {
                        Ok(
                            SessionState {
                                peer: s.responder,
                                auth_key: keys.auth,
                                ratchet: initiator_ratchet(s.ephemeral, responder_ek, keys.root),
                            },
                        )
                    },
                }
            },
        }
    }
}

/// What the responder has of an offer whose proof was right.
pub struct CheckedOffer {
    pub identity: Seq<u8>,
    pub ephemeral: Seq<u8>,
    pub root_seed: Seq<u8>,
    pub transcript: Seq<u8>,
}

/// What checking an offer comes to.
pub open spec fn checked(identity: KeyPair, offer: Offer) -> Result<CheckedOffer, CryptoError> {
    match keys::parse_key(offer.identity) {
        Err(e) => Err(e),
        Ok(initiator_ik) => match keys::parse_key(offer.ephemeral) {
            Err(e) => Err(e),
            Ok(initiator_ek) => {
                let ikm = identity.shared(initiator_ik) + identity.shared(initiator_ek);
                let expected = transcript(
                    offer.identity,
                    identity.text(),
                    offer.ephemeral,
                    offer.listen_url,
                );
                match aead::opened(handshake_key(ikm, "proof-key"@), offer.proof, offer_label()) {
                    Err(e) => Err(e),
                    Ok(proved) => if proved != expected {
                        Err(CryptoError::HandshakeProof)
                    } else {
                        Ok(
                            CheckedOffer {
                                identity: initiator_ik,
                                ephemeral: initiator_ek,
                                root_seed: handshake_key(ikm, "root-seed"@),
                                transcript: expected,
                            },
                        )
                    },
                }
            },
        },
    }
}

/// What accepting an offer comes to, given the ephemeral key and the nonce drawn for the answer.
pub open spec fn accepted(
    identity: KeyPair,
    offer: Offer,
    ephemeral: KeyPair,
    nonce: Seq<u8>,
) -> Result<(SessionState, Accept), CryptoError> {
    match checked(identity, offer) {
        Err(e) => Err(e),
        Ok(c) => {
            let keys = session_keys(
                c.root_seed,
                ephemeral.shared(c.ephemeral),
                ephemeral.shared(c.identity),
            );
            match aead::sealed(keys.accept_proof, nonce, c.transcript, accept_label()) {
                Err(e) => Err(e),
                Ok(proof) => Ok(
                    (
                        SessionState {
                            peer: offer.identity,
                            auth_key: keys.auth,
                            ratchet: responder_ratchet(ephemeral, c.ephemeral, keys.root),
                        },
                        Accept { identity: identity.text(), ephemeral: ephemeral.text(), proof },
                    ),
                ),
            }
        },
    }
}

/// An offer whose proof was right proves that who made it has seen the keys of both, the ephemeral
/// key and the URL: the proof opens to the transcript of exactly these, under a key that takes both
/// agreed secrets.
pub proof fn law_checked_offer_proves_its_values(identity: KeyPair, offer: Offer)
    ensures
        checked(identity, offer) matches Ok(c) ==> {
            let ikm = identity.shared(c.identity) + identity.shared(c.ephemeral);
            &&& keys::parse_key(offer.identity) == Ok::<Seq<u8>, CryptoError>(c.identity)
            &&& keys::parse_key(offer.ephemeral) == Ok::<Seq<u8>, CryptoError>(c.ephemeral)
            &&& aead::opened(
                primitives::hkdf_sha256(
                    ikm,
                    encode_utf8("secure-p2p-chat-hs-v2"@),
                    encode_utf8("proof-key"@),
                ),
                offer.proof,
                encode_utf8("hs-offer"@),
            ) == Ok::<Seq<u8>, CryptoError>(
                encode_utf8(
                    "p2p-chat-handshake-v2|"@ + offer.identity + "|"@ + identity.text() + "|"@
                        + offer.ephemeral + "|"@ + offer.listen_url,
                ),
            )
            &&& c.root_seed == primitives::hkdf_sha256(
                ikm,
                encode_utf8("secure-p2p-chat-hs-v2"@),
                encode_utf8("root-seed"@),
            )
        },
{
}

/// An answer that finishes a handshake comes from the peer that the offer was made to, and proves that
/// it has seen the same values, under keys that take all secrets that the two agreed on.
pub proof fn law_finished_handshake_proves_its_values(s: InitiatorState, accept: Accept)
    ensures
        finished(s, accept) matches Ok(session) ==> {
            let ek = keys::parse_key(accept.ephemeral)->Ok_0;
            let ikm = s.root_seed + s.ephemeral.shared(ek) + s.identity.shared(ek);
            &&& accept.identity == s.responder
            &&& session.peer == s.responder
            &&& aead::opened(
                primitives::hkdf_sha256(
                    ikm,
                    encode_utf8("secure-p2p-chat-hs-v2"@),
                    encode_utf8("accept-proof"@),
                ),
                accept.proof,
                encode_utf8("hs-accept"@),
            ) == Ok::<Seq<u8>, CryptoError>(s.transcript())
            &&& session.auth_key == primitives::hkdf_sha256(
                ikm,
                encode_utf8("secure-p2p-chat-hs-v2"@),
                encode_utf8("session-auth"@),
            )
            &&& session.ratchet.dhs == Some(s.ephemeral)
            &&& session.ratchet.dhr == Some(ek)
        },
        accept.identity != s.responder ==> finished(s, accept) == Err::<SessionState, CryptoError>(
            CryptoError::HandshakeProof,
        ),
{
}

/// Whether an answer is one that this identity gave: it holds the keys, and its proof opens to the
/// transcript.
pub open spec fn answers(
    identity: KeyPair,
    offer: Offer,
    ephemeral: KeyPair,
    accept: Accept,
) -> bool {
    &&& identity.valid()
    &&& ephemeral.valid()
    &&& accept.identity == identity.text()
    &&& accept.ephemeral == ephemeral.text()
    &&& keys::spelled(accept.identity)
    &&& keys::spelled(accept.ephemeral)
    &&& keys::parse_key(accept.identity) == Ok::<Seq<u8>, CryptoError>(identity.public)
    &&& keys::parse_key(accept.ephemeral) == Ok::<Seq<u8>, CryptoError>(ephemeral.public)
    &&& checked(identity, offer) matches Ok(c) && aead::opened(
        session_keys(
            c.root_seed,
            ephemeral.shared(c.ephemeral),
            ephemeral.shared(c.identity),
        ).accept_proof,
        accept.proof,
        accept_label(),
    ) == Ok::<Seq<u8>, CryptoError>(c.transcript)
}

/// Whether accepting an offer came to `outcome`.
pub open spec fn accepted_as(
    identity: KeyPair,
    offer: Offer,
    ephemeral: KeyPair,
    outcome: Result<(SessionState, Accept), CryptoError>,
    r: Result<(SecureSession, HandshakeAccept), CryptoError>,
) -> bool {
    match r {
        Ok((session, accept)) => session.wf() && outcome == Ok::<
            (SessionState, Accept),
            CryptoError,
        >((session@, accept@)) && answers(identity, offer, ephemeral, accept@),
        Err(e) => outcome == Err::<(SessionState, Accept), CryptoError>(e),
    }
}

/// Whether what a proof opened to is what was expected of it.
pub fn check_proof(proved: Result<Vec<u8>, CryptoError>, expected: &[u8]) -> (r: Result<
    (),
    CryptoError,
>)
    ensures
        r == match proved {
            Ok(bytes) => if bytes@ == expected@ {
                Ok(())
            } else {
                Err(CryptoError::HandshakeProof)
            },
            Err(e) => Err(e),
        },
{
    match proved {
        Ok(bytes) => {
            if text::same_bytes(bytes.as_slice(), expected) {
                Ok(())
            } else {
                Err(CryptoError::HandshakeProof)
            }
        },
        Err(e) => Err(e),
    }
}

/// The side that starts a handshake. It knows the identity of the responder.
pub struct HandshakeInitiator {
    identity: Identity,
    ephemeral: Identity,
    responder_ik_b64: String,
    listen_url: String,
    root_seed: [u8; KEY_LEN],
}

impl View for HandshakeInitiator {
    type V = InitiatorState;

    closed spec fn view(&self) -> InitiatorState {
        InitiatorState {
            identity: self.identity@,
            ephemeral: self.ephemeral@,
            responder: self.responder_ik_b64@,
            listen_url: self.listen_url@,
            root_seed: self.root_seed@,
        }
    }
}

impl HandshakeInitiator {
    /// Makes an offer, with the ephemeral key and the nonce given.
    pub fn start_with(
        identity: &Identity,
        responder_ik_b64: &str,
        listen_url: &str,
        ephemeral: Identity,
        nonce: &[u8; NONCE_LEN],
    ) -> (r: Result<(HandshakeInitiator, HandshakeOffer), CryptoError>)
        ensures
            offered_as(
                offered(identity@, responder_ik_b64@, listen_url@, ephemeral@, nonce@),
                r,
            ),
            r is Ok <==> keys::parse_key(responder_ik_b64@) is Ok && aead::sealable(
                transcript_len(responder_ik_b64@, listen_url@),
            ),
    {
        let responder_ik = match keys::parse_public_key(responder_ik_b64) {
            Ok(key) => key,
            Err(e) => return Err(e),
        };
        let ss = identity.dh(&responder_ik);
        let es = ephemeral.dh(&responder_ik);
        let ikm = kdf::joined(&ss, &es);
        let root_seed = derive_handshake_key(ikm.as_slice(), "root-seed");
        let proof_key = derive_handshake_key(ikm.as_slice(), "proof-key");
        let identity_b64 = identity.public_key_b64();
        let ephemeral_b64 = ephemeral.public_key_b64();
        let seen = handshake_transcript(
            identity_b64.as_str(),
            responder_ik_b64,
            ephemeral_b64.as_str(),
            listen_url,
        );
        proof {
            reveal_strlit("hs-offer");
            keys::lemma_ascii_len("hs-offer"@);
            lemma_transcript_len(identity_b64@, responder_ik_b64@, ephemeral_b64@, listen_url@);
        }
        let proof_payload = match aead::aead_encrypt_with(
            &proof_key,
            nonce,
            seen.as_slice(),
            "hs-offer".as_bytes(),
        ) {
            Ok(payload) => payload,
            Err(e) => return Err(e),
        };
        let offer = HandshakeOffer {
            identity_public_key_b64: identity_b64,
            ephemeral_public_key_b64: ephemeral_b64,
            listen_url: listen_url.to_owned(),
            proof: proof_payload,
        };
        let state = HandshakeInitiator {
            identity: identity.clone(),
            ephemeral,
            responder_ik_b64: responder_ik_b64.to_owned(),
            listen_url: listen_url.to_owned(),
            root_seed,
        };
        Ok((state, offer))
    }

    /// Makes an offer to the responder whose identity is given, with an ephemeral key drawn for it.
    pub fn start(identity: &Identity, responder_ik_b64: &str, listen_url: &str) -> (r: Result<
        (HandshakeInitiator, HandshakeOffer),
        CryptoError,
    >)
        ensures
            exists|ephemeral: KeyPair, nonce: Seq<u8>|
                ephemeral.valid() && nonce.len() == 12 && offered_as(
                    #[trigger] offered(
                        identity@,
                        responder_ik_b64@,
                        listen_url@,
                        ephemeral,
                        nonce,
                    ),
                    r,
                ),
            r is Ok <==> keys::parse_key(responder_ik_b64@) is Ok && aead::sealable(
                transcript_len(responder_ik_b64@, listen_url@),
            ),
    {
        let ephemeral = Identity::generate();
        let nonce = primitives::random_nonce();
        assert(nonce@.len() == 12);
        HandshakeInitiator::start_with(identity, responder_ik_b64, listen_url, ephemeral, &nonce)
    }

    /// The identity of the responder that the offer was made for.
    pub fn responder_ik_b64(&self) -> (r: &str)
        ensures
            r@ == self@.responder,
    {
        self.responder_ik_b64.as_str()
    }

    /// Finishes the handshake with the responder's answer.
    pub fn finish(self, accept: &HandshakeAccept) -> (r: Result<SecureSession, CryptoError>)
        ensures
            match r {
                Ok(session) => session.wf() && finished(self@, accept@) == Ok::<
                    SessionState,
                    CryptoError,
                >(session@),
                Err(e) => finished(self@, accept@) == Err::<SessionState, CryptoError>(e),
            },
    {
        if accept.identity_public_key_b64 != self.responder_ik_b64 {
            return Err(CryptoError::HandshakeProof);
        }
        let responder_ek = match keys::parse_public_key(accept.ephemeral_public_key_b64.as_str()) {
            Ok(key) => key,
            Err(e) => return Err(e),
        };
        let ee = self.ephemeral.dh(&responder_ek);
        let se = self.identity.dh(&responder_ek);
        let (root_key, auth_key, accept_proof_key) = derive_session_keys(&self.root_seed, &ee, &se);
        let expected = handshake_transcript(
            self.identity.public_key_b64().as_str(),
            self.responder_ik_b64.as_str(),
            self.ephemeral.public_key_b64().as_str(),
            self.listen_url.as_str(),
        );
        let proved = aead::aead_decrypt(&accept_proof_key, &accept.proof, "hs-accept".as_bytes());
        match check_proof(proved, expected.as_slice()) {
            Ok(_) => {},
            Err(e) => return Err(e),
        }
        let (rk, cks) = kdf::kdf_rk(&root_key, &ee);
        Ok(
            SecureSession::from_handshake(
                self.responder_ik_b64,
                auth_key,
                self.ephemeral,
                responder_ek,
                rk,
                Some(cks),
                None,
            ),
        )
    }
}

/// The side that answers a handshake.
pub struct HandshakeResponder;

impl HandshakeResponder {
    /// Accepts an offer, with the ephemeral key and the nonce given.
    pub fn accept_with(
        identity: &Identity,
        offer: &HandshakeOffer,
        ephemeral: Identity,
        nonce: &[u8; NONCE_LEN],
    ) -> (r: Result<(SecureSession, HandshakeAccept), CryptoError>)
        ensures
            accepted_as(
                identity@,
                offer@,
                ephemeral@,
                accepted(identity@, offer@, ephemeral@, nonce@),
                r,
            ),
    {
        let initiator_ik = match keys::parse_public_key(offer.identity_public_key_b64.as_str()) {
            Ok(key) => key,
            Err(e) => return Err(e),
        };
        let initiator_ek = match keys::parse_public_key(offer.ephemeral_public_key_b64.as_str()) {
            Ok(key) => key,
            Err(e) => return Err(e),
        };
        let ss = identity.dh(&initiator_ik);
        let es = identity.dh(&initiator_ek);
        let ikm = kdf::joined(&ss, &es);
        let root_seed = derive_handshake_key(ikm.as_slice(), "root-seed");
        let proof_key = derive_handshake_key(ikm.as_slice(), "proof-key");
        let identity_b64 = identity.public_key_b64();
        let expected = handshake_transcript(
            offer.identity_public_key_b64.as_str(),
            identity_b64.as_str(),
            offer.ephemeral_public_key_b64.as_str(),
            offer.listen_url.as_str(),
        );
        let proved = aead::aead_decrypt(&proof_key, &offer.proof, "hs-offer".as_bytes());
        match check_proof(proved, expected.as_slice()) {
            Ok(_) => {},
            Err(e) => return Err(e),
        }
        let ee = ephemeral.dh(&initiator_ek);
        let se = ephemeral.dh(&initiator_ik);
        let (root_key, auth_key, accept_proof_key) = derive_session_keys(&root_seed, &ee, &se);
        proof {
            reveal_strlit("hs-accept");
            keys::lemma_ascii_len("hs-accept"@);
        }
        let proof_payload = match aead::aead_encrypt_with(
            &accept_proof_key,
            nonce,
            expected.as_slice(),
            "hs-accept".as_bytes(),
        ) {
            Ok(payload) => payload,
            Err(e) => return Err(e),
        };
        let accept = HandshakeAccept {
            identity_public_key_b64: identity_b64,
            ephemeral_public_key_b64: ephemeral.public_key_b64(),
            proof: proof_payload,
        };
        let (rk, ckr) = kdf::kdf_rk(&root_key, &ee);
        let session = SecureSession::from_handshake(
            offer.identity_public_key_b64.clone(),
            auth_key,
            ephemeral,
            initiator_ek,
            rk,
            None,
            Some(ckr),
        );
        Ok((session, accept))
    }

    /// Accepts an offer whose proof is right, with an ephemeral key drawn for the answer.
    pub fn accept(identity: &Identity, offer: &HandshakeOffer) -> (r: Result<
        (SecureSession, HandshakeAccept),
        CryptoError,
    >)
        ensures
            exists|ephemeral: KeyPair, nonce: Seq<u8>|
                ephemeral.valid() && nonce.len() == 12 && accepted_as(
                    identity@,
                    offer@,
                    ephemeral,
                    #[trigger] accepted(identity@, offer@, ephemeral, nonce),
                    r,
                ),
            r is Ok <==> (checked(identity@, offer@) matches Ok(c) && aead::sealable(
                c.transcript.len(),
            )),
    {
        let ephemeral = Identity::generate();
        let nonce = primitives::random_nonce();
        assert(nonce@.len() == 12);
        proof {
            reveal_strlit("hs-accept");
            keys::lemma_ascii_len("hs-accept"@);
        }
        HandshakeResponder::accept_with(identity, offer, ephemeral, &nonce)
    }
}

/// An offer is accepted by the responder it was made for, who takes from it the initiator's keys
/// and the initiator's secret.
pub proof fn law_offer_is_accepted(state: InitiatorState, offer: Offer, responder: KeyPair)
    requires
        offers(state, offer),
        responder.valid(),
        state.responder == responder.text(),
        keys::parse_key(responder.text()) == Ok::<Seq<u8>, CryptoError>(responder.public),
    ensures
        checked(responder, offer) == Ok::<CheckedOffer, CryptoError>(
            CheckedOffer {
                identity: state.identity.public,
                ephemeral: state.ephemeral.public,
                root_seed: state.root_seed,
                transcript: state.transcript(),
            },
        ),
{
    keys::lemma_key_agreement(state.identity, responder);
    keys::lemma_key_agreement(state.ephemeral, responder);
}

/// A handshake comes to an end: the responder's answer to an offer that was made for it finishes
/// the handshake. Each side has the other's identity, both have the same key for what is sealed
/// under the session itself, their ratchets are in step, and neither has anything left to read.
pub proof fn law_handshake_agrees(
    state: InitiatorState,
    offer: Offer,
    responder: KeyPair,
    ephemeral: KeyPair,
    nonce: Seq<u8>,
    session: SessionState,
    accept: Accept,
)
    requires
        offers(state, offer),
        state.responder == responder.text(),
        accepted(responder, offer, ephemeral, nonce) == Ok::<(SessionState, Accept), CryptoError>(
            (session, accept),
        ),
        answers(responder, offer, ephemeral, accept),
    ensures
        session.peer == state.identity.text(),
        finished(state, accept) matches Ok(mine) && {
            &&& mine.peer == responder.text()
            &&& mine.auth_key == session.auth_key
            &&& conversation::in_step(mine.ratchet, session.ratchet)
            &&& conversation::caught_up(mine.ratchet, session.ratchet)
            &&& conversation::caught_up(session.ratchet, mine.ratchet)
        },
{
    law_offer_is_accepted(state, offer, responder);
    keys::lemma_key_agreement(state.identity, ephemeral);
    keys::lemma_key_agreement(state.ephemeral, ephemeral);
    let mine = finished(state, accept)->Ok_0;
    assert(conversation::leads(session.ratchet, mine.ratchet));
}

/// An offer is bound to the URL in it: with another URL, the offer that was accepted is refused.
pub proof fn law_offer_is_bound_to_its_url(responder: KeyPair, offer: Offer, changed: Offer)
    requires
        checked(responder, offer) is Ok,
        changed == (Offer { listen_url: changed.listen_url, ..offer }),
        changed.listen_url != offer.listen_url,
    ensures
        checked(responder, changed) == Err::<CheckedOffer, CryptoError>(CryptoError::HandshakeProof),
{
    let a = transcript_text(offer.identity, responder.text(), offer.ephemeral, offer.listen_url);
    let b = transcript_text(
        offer.identity,
        responder.text(),
        offer.ephemeral,
        changed.listen_url,
    );
    encode_utf8_decode_utf8(a);
    encode_utf8_decode_utf8(b);
    if a == b {
        let front = a.len() - offer.listen_url.len();
        assert(a.skip(front) =~= offer.listen_url);
        assert(b.skip(b.len() - changed.listen_url.len()) =~= changed.listen_url);
    }
}

/// What one side of a session seals under the session itself, the other side opens.
pub proof fn law_session_auth_opens(
    mine: SessionState,
    theirs: SessionState,
    plaintext: Seq<u8>,
    payload: SealedPayload,
)
    requires
        mine.auth_key == theirs.auth_key,
        aead::seals(mine.auth_key, ratchet::auth_label(), plaintext, payload),
    ensures
        aead::opened(theirs.auth_key, payload, ratchet::auth_label()) == Ok::<
            Seq<u8>,
            CryptoError,
        >(plaintext),
{
}

} // verus!
