//! Peers that talk to each other, with calls in the place of the network.
use secure_p2p_chat::crypto::{
    CryptoError, EncryptedPayload, HandshakeInitiator, Identity, RatchetHeader, RatchetMessage,
};
use secure_p2p_chat::net::Ipv4;
use secure_p2p_chat::peer::node::{check_pull, delivered_text, pulled_text};
use secure_p2p_chat::peer::{
    check_listener, ChatMessage, ConnectStep, PeerError, PeerNode, PullRequest, Refusal, Status,
    Timestamp, WireMessage,
};

const NOWHERE: [Ipv4; 0] = [];

fn connect(a: &mut PeerNode, b: &mut PeerNode, url_b: &str) -> Result<(), PeerError> {
    let url = match a.connect_to(url_b)? {
        ConnectStep::Connected => return Ok(()),
        ConnectStep::Dial(url) => url,
    };
    let (initiator, offer) = a.offer_to(&b.public_key_b64(), &NOWHERE)?;
    let accept = b.accept_handshake(&offer).expect("offer is accepted");
    a.finish_connect(url, initiator, &accept)
}

/// Sends a text, and delivers it where the sender can dial the receiver.
fn send(a: &mut PeerNode, b: &mut PeerNode, body: &str) -> Result<ChatMessage, PeerError> {
    assert!(a.can_send_text(body));
    let out = a.send_text(body)?;
    let mut delivered = false;
    if out.dial.is_some() {
        assert!(b.can_accept_message(&out.wire));
        delivered = b.accept_message(&out.wire).is_ok();
    }
    a.finish_send(out, delivered)
}

fn poll(a: &mut PeerNode, b: &mut PeerNode) -> usize {
    let (_url, request) = a.poll_request().expect("a peer that can be reached");
    let list = b.accept_pull(&request).expect("the mailbox opens");
    assert_eq!(a.receive_pulled(&list), list.len());
    list.len()
}

fn pair() -> (PeerNode, PeerNode) {
    let mut a = PeerNode::new(7001, Some("127.0.0.1"));
    let mut b = PeerNode::new(7002, Some("127.0.0.1"));
    connect(&mut a, &mut b, "http://127.0.0.1:7002").expect("connect");
    (a, b)
}

fn said(e: Result<impl Sized, PeerError>) -> String {
    match e {
        Ok(_) => panic!("no error"),
        Err(e) => e.message(),
    }
}

fn refused(r: Result<impl Sized, Refusal>) -> (u16, String) {
    match r {
        Ok(_) => panic!("not refused"),
        Err(refusal) => (refusal.status.code(), refusal.reason),
    }
}

#[test]
fn two_peers_handshake_and_exchange_encrypted_message() {
    let mut peer_a = PeerNode::new(7001, Some("127.0.0.1"));
    let mut peer_b = PeerNode::new(7002, Some("127.0.0.1"));

    connect(&mut peer_a, &mut peer_b, "http://127.0.0.1:7002").expect("connect");
    peer_a.verify_contact(&NOWHERE).expect("verify a");
    peer_b.verify_contact(&NOWHERE).expect("verify b");

    send(&mut peer_a, &mut peer_b, "bonjour chiffre").expect("send from a");

    let snap_b = peer_b.snapshot(&NOWHERE);
    assert!(snap_b.connected);
    assert_eq!(snap_b.messages.len(), 1);
    assert_eq!(snap_b.messages[0].direction, "in");
    assert_eq!(snap_b.messages[0].body, "bonjour chiffre");
    assert!(snap_b.safety_number.is_some());
    assert_eq!(snap_b.trust_state, "verified");

    send(&mut peer_b, &mut peer_a, "ack").expect("send from b");
    poll(&mut peer_a, &mut peer_b);

    let snap_a = peer_a.snapshot(&NOWHERE);
    assert!(snap_a
        .messages
        .iter()
        .any(|m| m.direction == "in" && m.body == "ack"));
    assert_eq!(snap_a.safety_number, snap_b.safety_number);
}

#[test]
fn mailbox_delivers_when_dialback_unreachable() {
    let mut host = PeerNode::new(7001, Some("127.0.0.1"));
    let mut nat = PeerNode::new(7002, None);

    connect(&mut nat, &mut host, "http://127.0.0.1:7001").expect("nat dials host");
    nat.verify_contact(&NOWHERE).expect("verify nat");
    host.verify_contact(&NOWHERE).expect("verify host");

    assert!(!host.snapshot(&NOWHERE).peer_dialable);
    send(&mut host, &mut nat, "hello from host").expect("host send");
    assert_eq!(poll(&mut nat, &mut host), 1);

    let snap_nat = nat.snapshot(&NOWHERE);
    assert!(
        snap_nat
            .messages
            .iter()
            .any(|m| m.direction == "in" && m.body == "hello from host"),
        "NAT peer should receive mailbox reply via /pull, got: {:?}",
        snap_nat.messages
    );
    assert_eq!(poll(&mut nat, &mut host), 0);
}

#[test]
fn advertise_host_used_in_listen_url() {
    let peer = PeerNode::new(7420, Some("203.0.113.50"));
    let snap = peer.snapshot(&NOWHERE);
    let expected = format!("http://203.0.113.50:{}", 7420);
    assert_eq!(snap.share_url, expected);
    assert_eq!(snap.listen_addr, expected);
    assert!(snap.candidate_urls.iter().any(|u| u == &expected));
}

#[test]
fn spoofed_handshake_without_private_key_is_rejected() {
    let mut peer_b = PeerNode::new(7002, Some("127.0.0.1"));
    let victim = Identity::generate();
    let mallory = Identity::generate();
    let bob_pk = peer_b.public_key_b64();

    let (_init, mut offer) =
        HandshakeInitiator::start(&mallory, &bob_pk, "http://127.0.0.1:9").unwrap();
    // Claim victim's identity while proofs were built with Mallory's secrets.
    offer.identity_public_key_b64 = victim.public_key_b64();

    let refusal = peer_b.accept_handshake(&offer).unwrap_err();
    assert_eq!(refusal.status, Status::Unauthorized);
    assert_eq!(refusal.status.code(), 401);
    assert!(!peer_b.snapshot(&NOWHERE).connected);
}

#[test]
fn message_from_unknown_peer_key_is_forbidden() {
    let (_peer_a, mut peer_b) = pair();

    let stranger = Identity::generate();
    let wire = WireMessage {
        from_public_key_b64: stranger.public_key_b64(),
        message: RatchetMessage {
            header: RatchetHeader {
                dh_public_b64: stranger.public_key_b64(),
                pn: 0,
                n: 0,
            },
            payload: EncryptedPayload {
                nonce_b64: "AAAAAAAAAAAAAAAA".to_string(),
                ciphertext_b64: "AAAA".to_string(),
            },
        },
    };
    let refusal = peer_b.accept_message(&wire).unwrap_err();
    assert_eq!(refusal.status, Status::Forbidden);
    assert_eq!(refusal.status.code(), 403);
}

#[test]
fn verify_contact_pins_trust_state() {
    let (mut peer_a, _peer_b) = pair();
    let before = peer_a.snapshot(&NOWHERE);
    assert_eq!(before.trust_state, "unverified");
    assert!(before.safety_number.is_some());

    let after = peer_a.verify_contact(&NOWHERE).expect("verify");
    assert_eq!(after.trust_state, "verified");
    assert_eq!(after.safety_number, before.safety_number);
}

#[test]
fn a_new_peer_shows_itself() {
    let mut peer = PeerNode::with_identity(Identity::from_secret([1; 32]), 7420, Some("  "));
    let local = [Ipv4 { a: 10, b: 0, c: 0, d: 5 }];
    let snap = peer.snapshot(&local);
    assert_eq!(snap.public_key_b64, "pOCSkrZRwni5dyxWn1+puxPZBrRqtoyd+dwrRAn4ogk=");
    assert_eq!(snap.share_url, "http://10.0.0.5:7420");
    assert_eq!(snap.candidate_urls, ["http://10.0.0.5:7420", "http://127.0.0.1:7420"]);
    assert_eq!(snap.advertise_host, None);
    assert_eq!(snap.peer_url, None);
    assert_eq!(snap.peer_public_key_b64, None);
    assert!(!snap.connected && !snap.peer_dialable);
    assert_eq!(snap.safety_number, None);
    assert_eq!(snap.trust_state, "unverified");
    assert!(snap.messages.is_empty());
    assert_eq!(peer.dialable_listen_url(&local), "");

    peer.set_advertise_host(Some(" chat.example.com "));
    assert_eq!(peer.snapshot(&local).advertise_host.as_deref(), Some("chat.example.com"));
    assert_eq!(peer.dialable_listen_url(&local), "http://chat.example.com:7420");
    assert_eq!(peer.share_url(&local), "http://chat.example.com:7420");
    peer.set_advertise_host(None);
    assert_eq!(peer.share_url(&local), "http://10.0.0.5:7420");
    assert!(peer.poll_request().is_none());
    assert_eq!(said(peer.verify_contact(&local)), "not connected to a peer");
}

#[test]
fn peers_know_where_the_other_is() {
    let (a, b) = pair();
    let (snap_a, snap_b) = (a.snapshot(&NOWHERE), b.snapshot(&NOWHERE));
    assert_eq!(snap_a.peer_url.as_deref(), Some("http://127.0.0.1:7002"));
    assert_eq!(snap_b.peer_url.as_deref(), Some("http://127.0.0.1:7001"));
    assert_eq!(snap_a.peer_public_key_b64, Some(b.public_key_b64()));
    assert_eq!(snap_b.peer_public_key_b64, Some(a.public_key_b64()));
    assert!(snap_a.peer_dialable && snap_b.peer_dialable);
}

#[test]
fn connecting_is_checked() {
    let (mut a, mut b) = pair();
    assert_eq!(said(a.connect_to("ftp://x")), "peer URL must be http(s)");
    assert_eq!(said(a.connect_to("")), "peer URL must be http(s)");
    assert_eq!(
        said(a.connect_to("http://127.0.0.1:9")),
        "already connected to another peer"
    );
    assert!(matches!(
        a.connect_to("http://127.0.0.1:7002//"),
        Ok(ConnectStep::Connected)
    ));
    connect(&mut a, &mut b, "http://127.0.0.1:7002/").expect("same peer");
    assert_eq!(said(a.offer_to("no key", &NOWHERE)), "invalid public key encoding");
}

#[test]
fn a_host_may_dial_back_a_peer_without_a_url() {
    let mut host = PeerNode::new(7001, Some("127.0.0.1"));
    let mut nat = PeerNode::new(7002, None);
    connect(&mut nat, &mut host, "http://127.0.0.1:7001").unwrap();
    connect(&mut host, &mut nat, "http://127.0.0.1:7002").unwrap();
    send(&mut host, &mut nat, "direct").unwrap();
    let snap = nat.snapshot(&NOWHERE);
    assert_eq!(snap.messages[0].body, "direct");
    assert_eq!(snap.peer_url.as_deref(), Some("http://127.0.0.1:7001"));
}

#[test]
fn answers_are_checked() {
    let mut a = PeerNode::new(7001, None);
    let mut b = PeerNode::new(7002, None);
    let mut c = PeerNode::new(7003, None);
    let (initiator, offer) = a.offer_to(&b.public_key_b64(), &NOWHERE).unwrap();
    let mut accept = b.accept_handshake(&offer).unwrap();
    accept.identity_public_key_b64 = c.public_key_b64();
    assert_eq!(
        said(a.finish_connect("http://b".to_string(), initiator, &accept)),
        "handshake public key mismatch with /identity"
    );

    let (initiator, _offer) = a.offer_to(&b.public_key_b64(), &NOWHERE).unwrap();
    accept.identity_public_key_b64 = b.public_key_b64();
    assert_eq!(
        said(a.finish_connect("http://b".to_string(), initiator, &accept)),
        "decryption failed (tampered or wrong key)"
    );
    assert!(!a.snapshot(&NOWHERE).connected);

    let (_initiator, offer) = a.offer_to(&c.public_key_b64(), &NOWHERE).unwrap();
    c.accept_handshake(&offer).unwrap();
}

#[test]
fn offers_are_checked() {
    let mut b = PeerNode::new(7002, None);
    let alice = Identity::generate();
    let (_init, offer) = HandshakeInitiator::start(&alice, &b.public_key_b64(), "").unwrap();

    let mut missing = offer.clone();
    missing.identity_public_key_b64 = "  ".to_string();
    assert_eq!(
        refused(b.accept_handshake(&missing)),
        (400, "missing public key".to_string())
    );
    let mut odd = offer.clone();
    odd.listen_url = " ftp://x ".to_string();
    assert_eq!(
        refused(b.accept_handshake(&odd)),
        (400, "listen_url must be http(s) or empty".to_string())
    );
    let mut bad_key = offer.clone();
    bad_key.identity_public_key_b64 = "AAAA".to_string();
    assert_eq!(
        refused(b.accept_handshake(&bad_key)),
        (400, "invalid public key encoding".to_string())
    );
    let mut bad_proof = offer.clone();
    bad_proof.proof.nonce_b64 = "?".to_string();
    assert_eq!(
        refused(b.accept_handshake(&bad_proof)),
        (401, "invalid handshake proof".to_string())
    );
    let mut moved = offer.clone();
    moved.listen_url = "http://elsewhere".to_string();
    assert_eq!(
        refused(b.accept_handshake(&moved)),
        (401, "handshake proof mismatch".to_string())
    );
    assert!(!b.snapshot(&NOWHERE).connected);

    b.accept_handshake(&offer).unwrap();
    let other = Identity::generate();
    let (_init, second) = HandshakeInitiator::start(&other, &b.public_key_b64(), "").unwrap();
    assert_eq!(
        refused(b.accept_handshake(&second)),
        (409, "already connected to another peer".to_string())
    );
    assert_eq!(
        b.snapshot(&NOWHERE).peer_public_key_b64,
        Some(alice.public_key_b64())
    );
}

#[test]
fn the_same_peer_may_shake_hands_again() {
    let (mut a, mut b) = pair();
    send(&mut a, &mut b, "before").unwrap();
    let (initiator, offer) = a.offer_to(&b.public_key_b64(), &NOWHERE).unwrap();
    let accept = b.accept_handshake(&offer).unwrap();
    a.finish_connect("http://127.0.0.1:7002".to_string(), initiator, &accept)
        .unwrap();
    send(&mut a, &mut b, "after").unwrap();
    let bodies: Vec<String> = b.snapshot(&NOWHERE).messages.into_iter().map(|m| m.body).collect();
    assert_eq!(bodies, ["before", "after"]);
    assert_eq!(
        b.snapshot(&NOWHERE).peer_url.as_deref(),
        Some("http://127.0.0.1:7001")
    );
}

#[test]
fn texts_are_checked() {
    let (mut a, mut b) = pair();
    assert_eq!(said(a.send_text(" \n")), "message must not be empty");
    assert_eq!(said(a.send_text(&"x".repeat(8193))), "message too long");
    assert_eq!(said(a.send_text(&"é".repeat(4097))), "message too long");
    let mut alone = PeerNode::new(7003, None);
    assert_eq!(said(alone.send_text("x")), "not connected to a peer");

    let long = "x".repeat(8192);
    send(&mut a, &mut b, &long).unwrap();
    send(&mut a, &mut b, " padded ").unwrap();
    let bodies: Vec<String> = b.snapshot(&NOWHERE).messages.into_iter().map(|m| m.body).collect();
    assert_eq!(bodies, [long, " padded ".to_string()]);
}

#[test]
fn sent_messages_are_stamped() {
    let (mut a, _b) = pair();
    let at = Timestamp { secs: 12, nanos: 34 };
    let out = a.send_text("hi").unwrap();
    assert_eq!(out.dial.as_deref(), Some("http://127.0.0.1:7002"));
    assert_eq!(out.body, "hi");
    let m = a.finish_send_as(out, true, "id".to_string(), at).unwrap();
    assert_eq!((m.id.as_str(), m.direction.as_str(), m.body.as_str()), ("id", "out", "hi"));
    assert_eq!(m.at, at);

    let out = a.send_text("hi").unwrap();
    let first = a.finish_send(out, true).unwrap();
    let out = a.send_text("hi").unwrap();
    let second = a.finish_send(out, true).unwrap();
    assert_eq!(first.id.len(), 36);
    assert_ne!(first.id, second.id);
    assert!(first.at.secs > 1_600_000_000 && first.at.nanos < 1_000_000_000);
    assert_eq!(a.snapshot(&NOWHERE).messages.len(), 3);
}

#[test]
fn a_mailbox_keeps_order_and_has_a_limit() {
    let mut host = PeerNode::new(7001, Some("127.0.0.1"));
    let mut nat = PeerNode::new(7002, None);
    connect(&mut nat, &mut host, "http://127.0.0.1:7001").unwrap();
    for i in 0..256 {
        send(&mut host, &mut nat, &format!("{i}")).unwrap();
    }
    assert_eq!(
        said(send(&mut host, &mut nat, "one more")),
        "outbox full; peer is not pulling"
    );
    assert_eq!(host.snapshot(&NOWHERE).messages.len(), 256);
    assert_eq!(poll(&mut nat, &mut host), 256);
    let bodies: Vec<String> = nat.snapshot(&NOWHERE).messages.into_iter().map(|m| m.body).collect();
    let expected: Vec<String> = (0..256).map(|i| format!("{i}")).collect();
    assert_eq!(bodies, expected);
    send(&mut host, &mut nat, "later").unwrap();
    assert_eq!(poll(&mut nat, &mut host), 1);
    assert_eq!(nat.snapshot(&NOWHERE).messages[256].body, "later");
}

#[test]
fn pulls_are_checked() {
    let (mut a, mut b) = pair();
    let mut alone = PeerNode::new(7003, None);
    let (url, request) = a.poll_request().unwrap();
    assert_eq!(url, "http://127.0.0.1:7002");
    assert_eq!(request.from_public_key_b64, a.public_key_b64());
    assert_eq!(
        refused(alone.accept_pull(&request)),
        (409, "no active session".to_string())
    );
    let strange = PullRequest {
        from_public_key_b64: alone.public_key_b64(),
        proof: request.proof.clone(),
    };
    assert_eq!(
        refused(b.accept_pull(&strange)),
        (403, "unknown peer public key".to_string())
    );
    let unproved = PullRequest {
        from_public_key_b64: a.public_key_b64(),
        proof: EncryptedPayload {
            nonce_b64: request.proof.nonce_b64.clone(),
            ciphertext_b64: "AAAA".to_string(),
        },
    };
    assert_eq!(
        refused(b.accept_pull(&unproved)),
        (401, "invalid pull proof".to_string())
    );
    let out = b.send_text("waits").unwrap();
    b.finish_send(out, false).unwrap();
    assert_eq!(b.accept_pull(&request).unwrap().len(), 1);
    assert_eq!(a.accept_pull(&b.poll_request().unwrap().1).unwrap().len(), 0);
}

/// Two peers with fixed keys, and one side of their session kept apart from them.
fn tapped() -> (PeerNode, secure_p2p_chat::crypto::SecureSession, String) {
    let alice = Identity::generate();
    let mut b = PeerNode::new(7002, None);
    let (init, offer) =
        HandshakeInitiator::start(&alice, &b.public_key_b64(), "http://127.0.0.1:7001").unwrap();
    let accept = b.accept_handshake(&offer).unwrap();
    (b, init.finish(&accept).unwrap(), alice.public_key_b64())
}

#[test]
fn a_pull_proves_the_right_phrase() {
    let (mut b, session, from) = tapped();
    let request = PullRequest {
        from_public_key_b64: from,
        proof: session.seal_auth(b"pull-v1").unwrap(),
    };
    assert_eq!(
        refused(b.accept_pull(&request)),
        (401, "pull proof mismatch".to_string())
    );
}

#[test]
fn messages_are_checked() {
    let (mut b, mut session, from) = tapped();
    let wire = |message: RatchetMessage| WireMessage {
        from_public_key_b64: from.clone(),
        message,
    };
    let not_text = wire(session.encrypt(&[0xff]).unwrap());
    assert_eq!(
        refused(b.accept_message(&not_text)),
        (400, "plaintext is not utf-8".to_string())
    );
    let too_long = wire(session.encrypt(&[b'x'; 8193]).unwrap());
    assert_eq!(
        refused(b.accept_message(&too_long)),
        (400, "message too long".to_string())
    );
    let mut garbled = wire(session.encrypt(b"x").unwrap());
    garbled.message.payload.ciphertext_b64 = "AAAA".to_string();
    assert_eq!(
        refused(b.accept_message(&garbled)),
        (400, "decryption failed (tampered or wrong key)".to_string())
    );
    assert!(b.snapshot(&NOWHERE).messages.is_empty());
    // An empty text is taken when it is delivered.
    let empty = wire(session.encrypt(b"").unwrap());
    b.accept_message_with(
        &empty,
        Identity::generate(),
        "id".to_string(),
        Timestamp { secs: 1, nanos: 2 },
    )
    .unwrap();
    let snap = b.snapshot(&NOWHERE);
    assert_eq!(snap.messages.len(), 1);
    assert_eq!(snap.messages[0].id, "id");
    assert_eq!(snap.messages[0].body, "");
    assert_eq!(snap.messages[0].at, Timestamp { secs: 1, nanos: 2 });
}

#[test]
fn pulled_messages_are_passed_over_when_odd() {
    let (mut b, mut session, from) = tapped();
    let wire = |message: RatchetMessage| WireMessage {
        from_public_key_b64: from.clone(),
        message,
    };
    let mut garbled = wire(session.encrypt(b"garbled").unwrap());
    garbled.message.payload.ciphertext_b64 = "AAAA".to_string();
    let mut strange = wire(session.encrypt(b"strange").unwrap());
    strange.from_public_key_b64 = b.public_key_b64();
    let list = vec![
        wire(session.encrypt(b"first").unwrap()),
        garbled,
        strange,
        wire(session.encrypt(&[0xff]).unwrap()),
        wire(session.encrypt(b"").unwrap()),
        wire(session.encrypt(&[b'x'; 8193]).unwrap()),
        wire(session.encrypt(b"last").unwrap()),
    ];
    assert_eq!(b.receive_pulled(&list), 7);
    let bodies: Vec<String> = b.snapshot(&NOWHERE).messages.into_iter().map(|m| m.body).collect();
    assert_eq!(bodies, ["first", "last"]);
    let one = wire(session.encrypt(b"one").unwrap());
    b.receive_pulled_one_with(
        &one,
        Identity::generate(),
        "id".to_string(),
        Timestamp { secs: 1, nanos: 2 },
    );
    assert_eq!(b.snapshot(&NOWHERE).messages[2].id, "id");
}

#[test]
fn listeners_are_checked() {
    assert_eq!(said(check_listener(true, 80)), "listener already started");
    assert_eq!(
        said(check_listener(false, 1023)),
        "port must be between 1024 and 65535"
    );
    assert!(check_listener(false, 1024).is_ok());
    assert!(check_listener(false, 65535).is_ok());
}

#[test]
fn plaintexts_are_taken_or_refused() {
    assert_eq!(delivered_text(Ok(b"one".to_vec())).unwrap(), "one");
    assert_eq!(
        refused(delivered_text(Err(CryptoError::SkippedKeysOverflow))),
        (400, "too many skipped message keys".to_string())
    );
    assert_eq!(
        refused(delivered_text(Ok(vec![0xc3]))),
        (400, "plaintext is not utf-8".to_string())
    );
    assert_eq!(
        refused(delivered_text(Ok(vec![b'x'; 8193]))),
        (400, "message too long".to_string())
    );
    assert_eq!(delivered_text(Ok(vec![b'x'; 8192])).unwrap().len(), 8192);
    assert_eq!(delivered_text(Ok(Vec::new())).unwrap(), "");
    assert_eq!(pulled_text(Ok(b"two".to_vec())).as_deref(), Some("two"));
    assert_eq!(pulled_text(Ok(vec![b'x'; 8192])).unwrap().len(), 8192);
    assert!(pulled_text(Ok(Vec::new())).is_none());
    assert!(pulled_text(Ok(vec![0xff])).is_none());
    assert!(pulled_text(Ok(vec![b'x'; 8193])).is_none());
    assert!(pulled_text(Err(CryptoError::Decrypt)).is_none());
}

#[test]
fn failed_handshakes_are_answered() {
    let mut peer = PeerNode::new(7001, None);
    let (_initiator, offer) = PeerNode::new(7002, None)
        .offer_to(&peer.public_key_b64(), &NOWHERE)
        .unwrap();
    let refusals = [
        (CryptoError::InvalidPublicKey, 400, "invalid public key encoding"),
        (CryptoError::InvalidCiphertext, 401, "invalid handshake proof"),
        (CryptoError::Encrypt, 400, "encryption failed"),
        (CryptoError::Decrypt, 401, "invalid handshake proof"),
        (CryptoError::HandshakeProof, 401, "handshake proof mismatch"),
    ];
    for (e, code, reason) in refusals {
        assert_eq!(
            refused(peer.welcome(&offer, Err(e))),
            (code, reason.to_string())
        );
    }
    assert_eq!(
        said(peer.join("http://x".to_string(), Err(CryptoError::HandshakeProof))),
        "responder handshake proof mismatch"
    );
    assert_eq!(
        said(peer.join("http://x".to_string(), Err(CryptoError::InvalidCiphertext))),
        "invalid ciphertext encoding"
    );
    assert!(!peer.is_connected());
}

#[test]
fn a_mailbox_opens_to_the_phrase() {
    assert_eq!(
        refused(check_pull(Err(CryptoError::Decrypt))),
        (401, "invalid pull proof".to_string())
    );
    assert_eq!(
        refused(check_pull(Ok(b"pull-v3".to_vec()))),
        (401, "pull proof mismatch".to_string())
    );
    assert!(check_pull(Ok(b"pull-v2".to_vec())).is_ok());
    let (mut a, mut b) = pair();
    let out = a.send_text("waits").unwrap();
    a.finish_send(out, false).unwrap();
    assert_eq!(poll(&mut b, &mut a), 1);
    assert_eq!(poll(&mut b, &mut a), 0);
    assert_eq!(bodies(&b), ["waits"]);
}

#[test]
fn texts_in_order_keep_arriving() {
    let (mut a, mut b) = pair();
    let mut expected = Vec::new();
    for i in 0..150 {
        let body = format!("text {i}");
        if i % 7 < 4 {
            send(&mut a, &mut b, &body).unwrap();
            expected.push(("in", body));
        } else {
            send(&mut b, &mut a, &body).unwrap();
            expected.push(("out", body));
        }
    }
    let seen = b.snapshot(&NOWHERE).messages;
    assert_eq!(seen.len(), 150);
    for (m, (direction, body)) in seen.iter().zip(expected) {
        assert_eq!((m.direction.as_str(), m.body.as_str()), (direction, body.as_str()));
    }
    assert_eq!(a.snapshot(&NOWHERE).messages.len(), 150);
}

#[test]
fn offers_of_peers_with_fixed_keys() {
    let a = PeerNode::with_identity(Identity::from_secret([1; 32]), 7420, Some("alice:7420"));
    let bob = Identity::from_secret([2; 32]).public_key_b64();
    let nonce = [0, 1, 2, 3, 4, 5, 6, 7, 8, 9, 10, 11];
    let (initiator, offer) = a
        .offer_to_with(&bob, &NOWHERE, Identity::from_secret([3; 32]), &nonce)
        .unwrap();
    assert_eq!(initiator.responder_ik_b64(), bob);
    assert_eq!(offer.listen_url, "http://alice:7420");
    assert!(offer.proof.ciphertext_b64.starts_with("u0v56hzlprFnAodJ"));
}

fn bodies(peer: &PeerNode) -> Vec<String> {
    peer.snapshot(&NOWHERE).messages.into_iter().map(|m| m.body).collect()
}

#[test]
fn refused_sends_leave_the_session_alone() {
    let mut host = PeerNode::new(7001, Some("127.0.0.1"));
    let mut nat = PeerNode::new(7002, None);
    connect(&mut nat, &mut host, "http://127.0.0.1:7001").unwrap();
    for i in 0..256 {
        send(&mut host, &mut nat, &format!("{i}")).unwrap();
    }
    // The other peer cannot be dialed: the text is refused before it is sealed.
    for _ in 0..70 {
        assert_eq!(said(host.send_text("refused")), "outbox full; peer is not pulling");
    }
    assert_eq!(poll(&mut nat, &mut host), 256);
    send(&mut host, &mut nat, "after").unwrap();
    assert_eq!(poll(&mut nat, &mut host), 1);
    assert_eq!(bodies(&nat).len(), 257);
    assert_eq!(bodies(&nat)[256], "after");
}

#[test]
fn undelivered_sends_leave_the_session_alone_when_refused() {
    let (mut a, mut b) = pair();
    for i in 0..256 {
        let out = a.send_text(&format!("{i}")).unwrap();
        a.finish_send(out, false).unwrap();
    }
    // The other peer can be dialed but does not answer: the text is refused after it was sealed.
    for _ in 0..70 {
        let out = a.send_text("refused").unwrap();
        assert!(out.dial.is_some());
        assert_eq!(said(a.finish_send(out, false)), "outbox full; peer is not pulling");
    }
    assert_eq!(bodies(&a).len(), 256);
    assert_eq!(poll(&mut b, &mut a), 256);
    send(&mut a, &mut b, "after").unwrap();
    assert_eq!(bodies(&b).len(), 257);
    assert_eq!(bodies(&b)[256], "after");
    // A full mailbox does not keep a text from a peer that answers.
    for i in 0..256 {
        let out = a.send_text(&format!("{i}")).unwrap();
        a.finish_send(out, false).unwrap();
    }
    let out = a.send_text("answered").unwrap();
    a.finish_send(out, true).unwrap();
}

/// Shakes hands, whether or not there is a session already.
fn shake(a: &mut PeerNode, b: &mut PeerNode, url_b: &str) {
    let (initiator, offer) = a.offer_to(&b.public_key_b64(), &NOWHERE).unwrap();
    let accept = b.accept_handshake(&offer).unwrap();
    a.finish_connect(url_b.to_string(), initiator, &accept).unwrap();
}

/// Puts a text into the mailbox of a peer.
fn leave(a: &mut PeerNode, body: &str) {
    let out = a.send_text(body).unwrap();
    a.finish_send(out, false).unwrap();
}

#[test]
fn what_waits_is_read_after_another_handshake() {
    let (mut a, mut b) = pair();
    send(&mut a, &mut b, "first").unwrap();
    leave(&mut b, "waits at b");
    leave(&mut b, "waits longer at b");
    leave(&mut a, "waits at a");
    shake(&mut a, &mut b, "http://127.0.0.1:7002");
    leave(&mut b, "left after it");
    assert_eq!(poll(&mut a, &mut b), 3);
    assert_eq!(poll(&mut b, &mut a), 1);
    assert_eq!(
        bodies(&a),
        ["first", "waits at a", "waits at b", "waits longer at b", "left after it"]
    );
    assert_eq!(bodies(&b)[4], "waits at a");
    send(&mut b, &mut a, "then").unwrap();
    send(&mut a, &mut b, "on").unwrap();
    assert_eq!(bodies(&a)[5..], ["then", "on"]);
    assert_eq!(bodies(&b)[5..], ["then", "on"]);
}

#[test]
fn a_host_that_dials_back_keeps_its_mailbox() {
    let mut host = PeerNode::new(7001, Some("127.0.0.1"));
    let mut nat = PeerNode::new(7002, None);
    connect(&mut nat, &mut host, "http://127.0.0.1:7001").unwrap();
    send(&mut host, &mut nat, "waits").unwrap();
    connect(&mut host, &mut nat, "http://127.0.0.1:7002").unwrap();
    send(&mut host, &mut nat, "direct").unwrap();
    assert_eq!(poll(&mut nat, &mut host), 1);
    assert_eq!(bodies(&nat), ["direct", "waits"]);
}

#[test]
fn a_replayed_offer_changes_nothing() {
    let mut a = PeerNode::new(7001, Some("127.0.0.1"));
    let mut b = PeerNode::new(7002, Some("127.0.0.1"));
    let (initiator, offer) = a.offer_to(&b.public_key_b64(), &NOWHERE).unwrap();
    let accept = b.accept_handshake(&offer).unwrap();
    a.finish_connect("http://127.0.0.1:7002".to_string(), initiator, &accept).unwrap();
    send(&mut a, &mut b, "one").unwrap();
    leave(&mut b, "waits");
    for _ in 0..3 {
        let again = b.accept_handshake(&offer).unwrap();
        assert_eq!(again.identity_public_key_b64, accept.identity_public_key_b64);
        assert_eq!(again.ephemeral_public_key_b64, accept.ephemeral_public_key_b64);
        assert_eq!(again.proof.nonce_b64, accept.proof.nonce_b64);
        assert_eq!(again.proof.ciphertext_b64, accept.proof.ciphertext_b64);
    }
    send(&mut a, &mut b, "two").unwrap();
    send(&mut b, &mut a, "three").unwrap();
    assert_eq!(poll(&mut a, &mut b), 1);
    assert_eq!(bodies(&a), ["one", "two", "three", "waits"]);
    // An offer of an earlier handshake is answered as before, too.
    shake(&mut a, &mut b, "http://127.0.0.1:7002");
    let again = b.accept_handshake(&offer).unwrap();
    assert_eq!(again.proof.ciphertext_b64, accept.proof.ciphertext_b64);
    send(&mut a, &mut b, "four").unwrap();
    send(&mut b, &mut a, "five").unwrap();
    assert_eq!(bodies(&a)[4..], ["four", "five"]);
    assert_eq!(bodies(&b)[4..], ["four", "five"]);
}

#[test]
fn an_answer_may_get_lost() {
    let (mut a, mut b) = pair();
    let (_initiator, offer) = a.offer_to(&b.public_key_b64(), &NOWHERE).unwrap();
    b.accept_handshake(&offer).unwrap();
    // The old keys are still those of both.
    send(&mut b, &mut a, "one").unwrap();
    send(&mut a, &mut b, "two").unwrap();
    shake(&mut a, &mut b, "http://127.0.0.1:7002");
    // What is sent before the other is heard of is still under the old keys.
    send(&mut b, &mut a, "three").unwrap();
    send(&mut a, &mut b, "four").unwrap();
    send(&mut b, &mut a, "five").unwrap();
    assert_eq!(bodies(&a), ["one", "two", "three", "four", "five"]);
    assert_eq!(bodies(&b), bodies(&a));
}

#[test]
fn a_first_answer_may_get_lost() {
    let mut a = PeerNode::new(7001, Some("127.0.0.1"));
    let mut b = PeerNode::new(7002, Some("127.0.0.1"));
    let (_initiator, offer) = a.offer_to(&b.public_key_b64(), &NOWHERE).unwrap();
    b.accept_handshake(&offer).unwrap();
    assert!(!a.is_connected());
    connect(&mut a, &mut b, "http://127.0.0.1:7002").unwrap();
    assert_eq!(poll(&mut a, &mut b), 0);
    send(&mut b, &mut a, "one").unwrap();
    send(&mut a, &mut b, "two").unwrap();
    assert_eq!(bodies(&a), ["one", "two"]);
    assert_eq!(bodies(&b), ["one", "two"]);
}

#[test]
fn an_offer_may_be_made_again() {
    let mut a = PeerNode::new(7001, Some("127.0.0.1"));
    let mut b = PeerNode::new(7002, Some("127.0.0.1"));
    let c = PeerNode::new(7003, None);
    let (initiator, offer) = a.offer_to(&b.public_key_b64(), &NOWHERE).unwrap();
    b.accept_handshake(&offer).unwrap();
    // The answer gets lost, and the other peer goes on to leave a text.
    leave(&mut b, "waits");
    assert!(!a.may_offer_again(&initiator, &offer, &c.public_key_b64(), &NOWHERE));
    a.set_advertise_host(None);
    assert!(!a.may_offer_again(&initiator, &offer, &b.public_key_b64(), &NOWHERE));
    a.set_advertise_host(Some("127.0.0.1"));
    assert!(a.may_offer_again(&initiator, &offer, &b.public_key_b64(), &NOWHERE));
    let accept = b.accept_handshake(&offer).unwrap();
    a.finish_connect("http://127.0.0.1:7002".to_string(), initiator, &accept).unwrap();
    send(&mut b, &mut a, "one").unwrap();
    assert_eq!(poll(&mut a, &mut b), 1);
    send(&mut a, &mut b, "two").unwrap();
    assert_eq!(bodies(&a), ["one", "waits", "two"]);
    assert_eq!(bodies(&b), ["waits", "one", "two"]);
}

#[test]
fn another_peer_takes_the_place_of_the_first() {
    let mut a = PeerNode::new(7001, Some("127.0.0.1"));
    let mut b = PeerNode::new(7002, None);
    let mut c = PeerNode::new(7003, None);
    connect(&mut b, &mut a, "http://127.0.0.1:7001").unwrap();
    // The host has no URL for the first peer, and dials another.
    connect(&mut a, &mut c, "http://127.0.0.1:7003").unwrap();
    assert_eq!(
        a.snapshot(&NOWHERE).peer_public_key_b64,
        Some(c.public_key_b64())
    );
    let out = b.send_text("late").unwrap();
    assert_eq!(
        refused(a.accept_message(&out.wire)),
        (403, "unknown peer public key".to_string())
    );
}

#[test]
fn refused_messages_change_nothing() {
    let (mut a, mut b) = pair();
    send(&mut a, &mut b, "one").unwrap();
    let out = a.send_text("two").unwrap();
    let mut garbled = out.wire.clone();
    garbled.message.payload.ciphertext_b64 = "AAAAAAAAAAAAAAAAAAAAAAAAAAAAAAAA".to_string();
    let mut foreign = garbled.clone();
    foreign.message.header.dh_public_b64 = Identity::generate().public_key_b64();
    let mut far = out.wire.clone();
    far.message.header.n = 1000;
    for _ in 0..3 {
        assert_eq!(refused(b.accept_message(&garbled)).0, 400);
        assert_eq!(refused(b.accept_message(&foreign)).0, 400);
        assert_eq!(refused(b.accept_message(&far)).0, 400);
        assert_eq!(b.receive_pulled(&vec![garbled.clone(), foreign.clone(), far.clone()]), 3);
    }
    b.accept_message(&out.wire).unwrap();
    for _ in 0..3 {
        assert_eq!(refused(b.accept_message(&garbled)).0, 400);
        assert_eq!(refused(b.accept_message(&foreign)).0, 400);
        assert_eq!(refused(b.accept_message(&out.wire)).0, 400);
        assert_eq!(b.receive_pulled(&vec![out.wire.clone()]), 1);
    }
    a.finish_send(out, true).unwrap();
    send(&mut b, &mut a, "three").unwrap();
    send(&mut a, &mut b, "four").unwrap();
    assert_eq!(bodies(&b), ["one", "two", "three", "four"]);
    assert_eq!(bodies(&a), ["one", "two", "three", "four"]);
}

#[test]
fn a_message_is_not_taken_twice_over_handshakes() {
    let (mut a, mut b) = pair();
    let out = a.send_text("once").unwrap();
    b.accept_message(&out.wire).unwrap();
    shake(&mut a, &mut b, "http://127.0.0.1:7002");
    send(&mut a, &mut b, "next").unwrap();
    assert_eq!(refused(b.accept_message(&out.wire)).0, 400);
    assert_eq!(b.receive_pulled(&vec![out.wire.clone()]), 1);
    assert_eq!(bodies(&b), ["once", "next"]);
}
