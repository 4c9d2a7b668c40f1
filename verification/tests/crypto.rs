//! Handshakes, sessions and trust, with keys drawn at random.
use base64::engine::general_purpose::STANDARD as B64;
use base64::Engine;
use secure_p2p_chat::crypto::{
    aead_encrypt, handshake_transcript, hkdf_expand, safety_number, ContactBook,
    HandshakeInitiator, HandshakeOffer, HandshakeResponder, Identity, TrustState,
};

#[test]
fn ratchet_roundtrip_with_replies() {
    let alice = Identity::generate();
    let bob = Identity::generate();

    let (init, offer) =
        HandshakeInitiator::start(&alice, &bob.public_key_b64(), "http://alice:7420").unwrap();
    let (mut bob_sess, accept) = HandshakeResponder::accept(&bob, &offer).unwrap();
    let mut alice_sess = init.finish(&accept).unwrap();

    let m1 = alice_sess.encrypt(b"hello peer").unwrap();
    assert_eq!(bob_sess.decrypt(&m1).unwrap(), b"hello peer");

    let m2 = bob_sess.encrypt(b"ack").unwrap();
    assert_eq!(alice_sess.decrypt(&m2).unwrap(), b"ack");

    let m3 = alice_sess.encrypt(b"again").unwrap();
    assert_eq!(bob_sess.decrypt(&m3).unwrap(), b"again");
}

#[test]
fn tampered_ciphertext_is_rejected() {
    let alice = Identity::generate();
    let bob = Identity::generate();
    let (init, offer) = HandshakeInitiator::start(&alice, &bob.public_key_b64(), "").unwrap();
    let (mut bob_sess, accept) = HandshakeResponder::accept(&bob, &offer).unwrap();
    let mut alice_sess = init.finish(&accept).unwrap();

    let mut msg = alice_sess.encrypt(b"secret").unwrap();
    let mut bytes = B64.decode(&msg.payload.ciphertext_b64).unwrap();
    bytes[0] ^= 0xff;
    msg.payload.ciphertext_b64 = B64.encode(bytes);
    assert!(bob_sess.decrypt(&msg).is_err());
}

#[test]
fn handshake_proof_requires_private_key() {
    let alice = Identity::generate();
    let bob = Identity::generate();
    let mallory = Identity::generate();

    let (_init, mut offer) =
        HandshakeInitiator::start(&mallory, &bob.public_key_b64(), "http://x").unwrap();
    offer.identity_public_key_b64 = alice.public_key_b64();
    assert!(HandshakeResponder::accept(&bob, &offer).is_err());
}

#[test]
fn spoofed_offer_with_stolen_identity_fails() {
    let alice = Identity::generate();
    let bob = Identity::generate();
    let mallory = Identity::generate();

    let ephemeral = Identity::generate();
    let ss = mallory.dh(&bob.public_key());
    let es = ephemeral.dh(&bob.public_key());
    let mut ikm = [0u8; 64];
    ikm[..32].copy_from_slice(&ss);
    ikm[32..].copy_from_slice(&es);
    let mut proof_key = [0u8; 32];
    hkdf_expand(&ikm, b"secure-p2p-chat-hs-v2", b"proof-key", &mut proof_key);
    let transcript = handshake_transcript(
        &alice.public_key_b64(),
        &bob.public_key_b64(),
        &ephemeral.public_key_b64(),
        "",
    );
    let proof = aead_encrypt(&proof_key, &transcript, b"hs-offer").unwrap();
    let offer = HandshakeOffer {
        identity_public_key_b64: alice.public_key_b64(),
        ephemeral_public_key_b64: ephemeral.public_key_b64(),
        listen_url: String::new(),
        proof,
    };
    assert!(HandshakeResponder::accept(&bob, &offer).is_err());
}

#[test]
fn trust_safety_number_is_symmetric_and_stable() {
    let a = Identity::generate();
    let b = Identity::generate();
    let s1 = safety_number(&a.public_key_b64(), &b.public_key_b64());
    let s2 = safety_number(&b.public_key_b64(), &a.public_key_b64());
    assert_eq!(s1, s2);
    assert!(!s1.is_empty());
    assert_eq!(s1, safety_number(&a.public_key_b64(), &b.public_key_b64()));
}

#[test]
fn trust_verify_pins_peer_key_only() {
    let local = Identity::generate();
    let peer = Identity::generate();
    let other = Identity::generate();
    let mut book = ContactBook::new();
    assert_eq!(
        book.trust_state(&local.public_key_b64(), &peer.public_key_b64()),
        TrustState::Unverified
    );
    book.verify(&local.public_key_b64(), &peer.public_key_b64());
    assert_eq!(
        book.trust_state(&local.public_key_b64(), &peer.public_key_b64()),
        TrustState::Verified
    );
    assert_eq!(
        book.trust_state(&local.public_key_b64(), &other.public_key_b64()),
        TrustState::Unverified
    );
    let pinned = book.get(&peer.public_key_b64()).unwrap();
    assert_eq!(
        pinned.safety_number,
        safety_number(&local.public_key_b64(), &peer.public_key_b64())
    );
}

#[test]
fn session_auth_seal_roundtrip() {
    let alice = Identity::generate();
    let bob = Identity::generate();
    let (init, offer) = HandshakeInitiator::start(&alice, &bob.public_key_b64(), "").unwrap();
    let (bob_sess, accept) = HandshakeResponder::accept(&bob, &offer).unwrap();
    let alice_sess = init.finish(&accept).unwrap();
    let sealed = alice_sess.seal_auth(b"pull-v2").unwrap();
    assert_eq!(bob_sess.open_auth(&sealed).unwrap(), b"pull-v2");
}

#[test]
fn out_of_order_messages_within_skip_window() {
    let alice = Identity::generate();
    let bob = Identity::generate();
    let (init, offer) = HandshakeInitiator::start(&alice, &bob.public_key_b64(), "").unwrap();
    let (mut bob_sess, accept) = HandshakeResponder::accept(&bob, &offer).unwrap();
    let mut alice_sess = init.finish(&accept).unwrap();

    let m0 = alice_sess.encrypt(b"zero").unwrap();
    let m1 = alice_sess.encrypt(b"one").unwrap();
    assert_eq!(bob_sess.decrypt(&m1).unwrap(), b"one");
    assert_eq!(bob_sess.decrypt(&m0).unwrap(), b"zero");
}
