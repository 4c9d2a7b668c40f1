//! Sessions under loss, delay and tampering.
use secure_p2p_chat::crypto::{
    CryptoError, EncryptedPayload, HandshakeInitiator, HandshakeResponder, Identity,
    RatchetHeader, RatchetMessage, SecureSession,
};

fn sessions() -> (SecureSession, SecureSession) {
    let alice = Identity::generate();
    let bob = Identity::generate();
    let (init, offer) = HandshakeInitiator::start(&alice, &bob.public_key_b64(), "").unwrap();
    let (bob_sess, accept) = HandshakeResponder::accept(&bob, &offer).unwrap();
    (init.finish(&accept).unwrap(), bob_sess)
}

fn number(i: usize) -> Vec<u8> {
    vec![i as u8; 3]
}

#[test]
fn a_whole_window_may_come_late() {
    let (mut alice, mut bob) = sessions();
    let sent: Vec<RatchetMessage> = (0..65).map(|i| alice.encrypt(&number(i)).unwrap()).collect();
    assert_eq!(bob.decrypt(&sent[64]).unwrap(), number(64));
    for i in (0..64).rev() {
        assert_eq!(bob.decrypt(&sent[i]).unwrap(), number(i));
    }
    let next = alice.encrypt(b"next").unwrap();
    assert_eq!(bob.decrypt(&next).unwrap(), b"next");
}

#[test]
fn more_than_a_window_is_refused() {
    let (mut alice, mut bob) = sessions();
    let sent: Vec<RatchetMessage> = (0..66).map(|i| alice.encrypt(&number(i)).unwrap()).collect();
    assert!(matches!(
        bob.decrypt(&sent[65]),
        Err(CryptoError::SkippedKeysOverflow)
    ));
    assert_eq!(bob.decrypt(&sent[0]).unwrap(), number(0));
}

#[test]
fn kept_keys_fill_the_window() {
    let (mut alice, mut bob) = sessions();
    let sent: Vec<RatchetMessage> = (0..80).map(|i| alice.encrypt(&number(i)).unwrap()).collect();
    assert_eq!(bob.decrypt(&sent[60]).unwrap(), number(60));
    assert_eq!(bob.decrypt(&sent[61]).unwrap(), number(61));
    assert!(matches!(
        bob.decrypt(&sent[70]),
        Err(CryptoError::SkippedKeysOverflow)
    ));
}

#[test]
fn messages_cross_and_chains_change() {
    let (mut alice, mut bob) = sessions();
    let a0 = alice.encrypt(b"a0").unwrap();
    let a1 = alice.encrypt(b"a1").unwrap();
    let b0 = bob.encrypt(b"b0").unwrap();
    assert_eq!(bob.decrypt(&a1).unwrap(), b"a1");
    assert_eq!(alice.decrypt(&b0).unwrap(), b"b0");
    let a2 = alice.encrypt(b"a2").unwrap();
    assert_eq!(a2.header.pn, 2);
    assert_eq!(a2.header.n, 0);
    assert_ne!(a2.header.dh_public_b64, a1.header.dh_public_b64);
    let b1 = bob.encrypt(b"b1").unwrap();
    assert_eq!(bob.decrypt(&a2).unwrap(), b"a2");
    assert_eq!(bob.decrypt(&a0).unwrap(), b"a0");
    let b2 = bob.encrypt(b"b2").unwrap();
    assert_eq!(b2.header.pn, 2);
    assert_eq!(alice.decrypt(&b2).unwrap(), b"b2");
    assert_eq!(alice.decrypt(&b1).unwrap(), b"b1");
}

#[test]
fn a_message_is_read_once() {
    let (mut alice, mut bob) = sessions();
    let m = alice.encrypt(b"once").unwrap();
    assert_eq!(bob.decrypt(&m).unwrap(), b"once");
    assert!(matches!(bob.decrypt(&m), Err(CryptoError::Decrypt)));
}

#[test]
fn a_header_cannot_be_changed() {
    let (mut alice, mut bob) = sessions();
    let mut m = alice.encrypt(b"text").unwrap();
    m.header.pn = 1;
    assert!(matches!(bob.decrypt(&m), Err(CryptoError::Decrypt)));
    let mut m = alice.encrypt(b"text").unwrap();
    m.header.dh_public_b64 = "nonsense".to_string();
    assert!(matches!(bob.decrypt(&m), Err(CryptoError::InvalidPublicKey)));
}

#[test]
fn a_first_message_may_not_claim_an_earlier_chain() {
    // The initiator has no receiving chain before the first reply.
    let (mut alice, _bob) = sessions();
    let m = RatchetMessage {
        header: RatchetHeader {
            dh_public_b64: Identity::generate().public_key_b64(),
            pn: 1,
            n: 0,
        },
        payload: EncryptedPayload {
            nonce_b64: "AAAAAAAAAAAAAAAA".to_string(),
            ciphertext_b64: "AAAA".to_string(),
        },
    };
    let e = alice.decrypt(&m).unwrap_err();
    assert_eq!(e.message(), "ratchet state error: missing recv chain for skip");
    assert!(matches!(
        e,
        CryptoError::Ratchet("missing recv chain for skip")
    ));
}

#[test]
fn counts_have_room_at_first() {
    let (mut alice, bob) = sessions();
    assert!(alice.can_encrypt());
    let mut m = alice.encrypt(b"x").unwrap();
    assert!(bob.can_decrypt(&m));
    m.header.n = u32::MAX;
    assert!(bob.can_decrypt(&m));
    m.header.dh_public_b64 = "nonsense".to_string();
    assert!(bob.can_decrypt(&m));
}

#[test]
fn a_sealed_message_can_be_taken_back() {
    let (mut alice, mut bob) = sessions();
    for _ in 0..70 {
        // The responder's first message draws a key, the initiator's does not.
        for session in [&mut alice, &mut bob] {
            let before = session.send_mark();
            session.encrypt(b"never sent").unwrap();
            let after = session.send_mark();
            session.unsend(before, &after);
        }
    }
    let m = alice.encrypt(b"first").unwrap();
    assert_eq!(m.header.n, 0);
    assert_eq!(bob.decrypt(&m).unwrap(), b"first");
    let r = bob.encrypt(b"reply").unwrap();
    assert_eq!((r.header.pn, r.header.n), (0, 0));
    assert_eq!(alice.decrypt(&r).unwrap(), b"reply");
}

#[test]
fn a_chain_that_has_moved_is_not_taken_back() {
    let (mut alice, mut bob) = sessions();
    let before = alice.send_mark();
    let first = alice.encrypt(b"first").unwrap();
    let after = alice.send_mark();
    let second = alice.encrypt(b"second").unwrap();
    alice.unsend(before, &after);
    let third = alice.encrypt(b"third").unwrap();
    assert_eq!(third.header.n, 2);
    for (m, text) in [(first, "first"), (second, "second"), (third, "third")] {
        assert_eq!(bob.decrypt(&m).unwrap(), text.as_bytes());
    }
}

#[test]
fn a_message_that_came_late_is_read_once() {
    let (mut alice, mut bob) = sessions();
    let late = alice.encrypt(b"late").unwrap();
    let next = alice.encrypt(b"next").unwrap();
    bob.decrypt(&next).unwrap();
    assert_eq!(bob.decrypt(&late).unwrap(), b"late");
    let reply = bob.encrypt(b"reply").unwrap();
    alice.decrypt(&reply).unwrap();
    let newer = alice.encrypt(b"newer").unwrap();
    bob.decrypt(&newer).unwrap();
    for m in [late, next, newer] {
        assert!(bob.clone().decrypt(&m).is_err());
    }
}

#[test]
fn handshakes_are_refused() {
    let alice = Identity::generate();
    let bob = Identity::generate();
    assert!(matches!(
        HandshakeInitiator::start(&alice, "no key", ""),
        Err(CryptoError::InvalidPublicKey)
    ));

    let (init, offer) = HandshakeInitiator::start(&alice, &bob.public_key_b64(), "http://a").unwrap();
    let mut moved = offer.clone();
    moved.listen_url = "http://b".to_string();
    assert!(matches!(
        HandshakeResponder::accept(&bob, &moved),
        Err(CryptoError::HandshakeProof)
    ));
    let mut garbled = offer.clone();
    garbled.ephemeral_public_key_b64 = "AAAA".to_string();
    assert!(matches!(
        HandshakeResponder::accept(&bob, &garbled),
        Err(CryptoError::InvalidPublicKey)
    ));
    assert!(matches!(
        HandshakeResponder::accept(&alice, &offer),
        Err(CryptoError::Decrypt)
    ));

    let (_session, mut accept) = HandshakeResponder::accept(&bob, &offer).unwrap();
    accept.identity_public_key_b64 = alice.public_key_b64();
    assert!(matches!(init.finish(&accept), Err(CryptoError::HandshakeProof)));
}

#[test]
fn an_answer_to_another_offer_does_not_fit() {
    let alice = Identity::generate();
    let bob = Identity::generate();
    let (first, _offer) = HandshakeInitiator::start(&alice, &bob.public_key_b64(), "").unwrap();
    let (_second, other) = HandshakeInitiator::start(&alice, &bob.public_key_b64(), "").unwrap();
    let (_session, accept) = HandshakeResponder::accept(&bob, &other).unwrap();
    assert!(matches!(first.finish(&accept), Err(CryptoError::Decrypt)));
}

#[test]
fn errors_say_what_is_wrong() {
    assert_eq!(CryptoError::InvalidPublicKey.message(), "invalid public key encoding");
    assert_eq!(CryptoError::InvalidCiphertext.message(), "invalid ciphertext encoding");
    assert_eq!(CryptoError::Encrypt.message(), "encryption failed");
    assert_eq!(
        CryptoError::Decrypt.message(),
        "decryption failed (tampered or wrong key)"
    );
    assert_eq!(CryptoError::HandshakeProof.message(), "handshake proof mismatch");
    assert_eq!(
        CryptoError::SkippedKeysOverflow.message(),
        "too many skipped message keys"
    );
}

#[test]
fn the_key_drawn_does_not_change_what_is_read() {
    let (mut alice, mut bob) = sessions();
    let hello = alice.encrypt(b"hello").unwrap();
    bob.decrypt(&hello).unwrap();
    let reply = bob.encrypt(b"reply").unwrap();
    let mut other = alice.clone();
    assert_eq!(
        alice.decrypt_with(&reply, Identity::from_secret([7; 32])).unwrap(),
        b"reply"
    );
    assert_eq!(
        other.decrypt_with(&reply, Identity::from_secret([8; 32])).unwrap(),
        b"reply"
    );
}

#[test]
fn a_lost_message_does_not_break_the_session() {
    let (mut alice, mut bob) = sessions();
    let _lost = alice.encrypt(b"lost").unwrap();
    let next = alice.encrypt(b"next").unwrap();
    assert_eq!(next.header.n, 1);
    assert_eq!(bob.decrypt(&next).unwrap(), b"next");
    let reply = bob.encrypt(b"reply").unwrap();
    assert_eq!(alice.decrypt(&reply).unwrap(), b"reply");
}

#[test]
fn a_message_is_read_once_whatever_comes_between() {
    let (mut alice, mut bob) = sessions();
    let once = alice.encrypt(b"once").unwrap();
    assert_eq!(bob.decrypt(&once).unwrap(), b"once");
    let mut garbled = alice.encrypt(b"garbled").unwrap();
    garbled.payload.ciphertext_b64 = "AAAAAAAAAAAAAAAAAAAAAAAAAAAAAAAA".to_string();
    assert!(bob.decrypt(&garbled).is_err());
    assert!(bob.decrypt(&once).is_err());
    garbled.header.dh_public_b64 = Identity::generate().public_key_b64();
    assert!(bob.decrypt(&garbled).is_err());
    bob.encrypt(b"unheard").unwrap();
    assert!(bob.decrypt(&once).is_err());
}

#[test]
fn a_copy_of_a_session_goes_on_as_the_session() {
    let (mut alice, mut bob) = sessions();
    let late = alice.encrypt(b"late").unwrap();
    let next = alice.encrypt(b"next").unwrap();
    assert_eq!(bob.decrypt(&next).unwrap(), b"next");
    let mut copy = bob.clone();
    assert_eq!(copy.decrypt(&late).unwrap(), b"late");
    assert!(copy.decrypt(&late).is_err());
    assert_eq!(bob.decrypt(&late).unwrap(), b"late");
    let reply = copy.encrypt(b"reply").unwrap();
    assert_eq!(alice.decrypt(&reply).unwrap(), b"reply");
}
