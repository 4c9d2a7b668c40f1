//! Exact values: published test vectors, and a conversation with fixed keys and nonces.
use secure_p2p_chat::crypto::aead::{aead_encrypt_with, nonce_of};
use secure_p2p_chat::crypto::handshake::check_proof;
use secure_p2p_chat::crypto::trust::digest_groups;
use secure_p2p_chat::crypto::{
    aead_decrypt, handshake_transcript, header_aad, hkdf_expand, kdf_ck, kdf_rk, parse_public_key, safety_number,
    CryptoError, EncryptedPayload, HandshakeInitiator, HandshakeResponder, Identity, PublicKey,
    RatchetHeader, SecureSession,
};

fn hex(s: &str) -> Vec<u8> {
    let mut out = Vec::new();
    let mut i = 0;
    while i < s.len() {
        out.push(u8::from_str_radix(&s[i..i + 2], 16).unwrap());
        i += 2;
    }
    out
}

fn key(s: &str) -> [u8; 32] {
    let mut out = [0u8; 32];
    out.copy_from_slice(&hex(s));
    out
}

const ALICE: &str = "pOCSkrZRwni5dyxWn1+puxPZBrRqtoyd+dwrRAn4ogk=";
const BOB: &str = "zo060cy2M+x7cMF4FKXHbs0CloUFDTRHRboFhw5YfVk=";
const ALICE_EPHEMERAL: &str = "Xf7dO2vUf2+ijuFdlp1bsOpTd01Ii9r53xxuASSz7yI=";
const BOB_EPHEMERAL: &str = "rAGyIJ6GNU+4UyN7XeD0+rE8f8v0M6YcAZNpYX/s8Qs=";

fn numbered(from: u8) -> [u8; 12] {
    let mut out = [0u8; 12];
    for (i, b) in out.iter_mut().enumerate() {
        *b = from + i as u8;
    }
    out
}

fn sessions() -> (SecureSession, SecureSession) {
    let alice = Identity::from_secret([1; 32]);
    let bob = Identity::from_secret([2; 32]);
    let (init, offer) = HandshakeInitiator::start_with(
        &alice,
        BOB,
        "http://alice:7420",
        Identity::from_secret([3; 32]),
        &numbered(0),
    )
    .unwrap();
    let (bob_sess, accept) = HandshakeResponder::accept_with(
        &bob,
        &offer,
        Identity::from_secret([4; 32]),
        &numbered(12),
    )
    .unwrap();
    (init.finish(&accept).unwrap(), bob_sess)
}

#[test]
fn x25519_public_key_of_rfc_7748() {
    let bob = Identity::from_secret(key(
        "5dab087e624a8a4b79e17f8b83800ee66f3bb1292618b6fd1c2f8b27ff88e0eb",
    ));
    assert_eq!(
        bob.public_key_bytes().to_vec(),
        hex("de9edb7d7b7dc1b4d35b61c2ece435373f8343c85b78674dadfc7e146f882b4f")
    );
    assert_eq!(bob.public_key().to_bytes(), bob.public_key_bytes());
}

#[test]
fn x25519_shared_secret() {
    let alice = Identity::from_secret([1; 32]);
    let bob = Identity::from_secret([2; 32]);
    assert_eq!(alice.public_key_b64(), ALICE);
    assert_eq!(bob.public_key_b64(), BOB);
    let shared = hex("2ed76ab549b1e73c031eb49c9448f0798aea81b698279a0c3dc3e49fbfc4b953");
    assert_eq!(alice.dh(&bob.public_key()).to_vec(), shared);
    assert_eq!(bob.dh(&alice.public_key()).to_vec(), shared);
    assert_eq!(alice.clone().public_key_b64(), ALICE);
}

#[test]
fn hkdf_of_rfc_5869() {
    let ikm = [0x0bu8; 22];
    let salt = hex("000102030405060708090a0b0c");
    let info = hex("f0f1f2f3f4f5f6f7f8f9");
    let mut out = [0u8; 32];
    hkdf_expand(&ikm, &salt, &info, &mut out);
    assert_eq!(
        out.to_vec(),
        hex("3cb25f25faacd57a90434f64d0362f2a2d2d0a90cf1a5a4c5db02d56ecc4c5bf")
    );
}

#[test]
fn chain_steps() {
    let (next, mk) = kdf_ck(&[7; 32]);
    assert_eq!(
        next.to_vec(),
        hex("e175175b7456fb9797a7fb683827d5b8b5fdec21db813ffb1a4f118ed8515bbf")
    );
    assert_eq!(
        mk.to_vec(),
        hex("18c36fbde40ed46cef0fda66b293e9c074bb9ecc2e2926b1065e419510261d4f")
    );
    let (rk, ck) = kdf_rk(&[7; 32], &[8; 32]);
    assert_eq!(
        rk.to_vec(),
        hex("15ca326d281e02af25b67d74f12b52e49b170c46619b7e4b62b42167e8822f1b")
    );
    assert_eq!(
        ck.to_vec(),
        hex("476c6aa6a58ff6ec22b49936cae7804261b6551279615ca406252b0fa902a6fa")
    );
}

#[test]
fn aes_256_gcm_with_zero_key() {
    let sealed = aead_encrypt_with(&[0; 32], &[0; 12], &[0; 16], b"").unwrap();
    // cea7403d4d606b6e074ec5d3baf39d18 and the tag d0d1c8a799996bf0265b98b5d48ab919, in base64.
    assert_eq!(sealed.nonce_b64, "AAAAAAAAAAAAAAAA");
    assert_eq!(
        sealed.ciphertext_b64,
        "zqdAPU1ga24HTsXTuvOdGNDRyKeZmWvwJluYtdSKuRk="
    );
    assert_eq!(aead_decrypt(&[0; 32], &sealed, b"").unwrap(), [0; 16]);
    assert!(matches!(
        aead_decrypt(&[0; 32], &sealed, b"other"),
        Err(CryptoError::Decrypt)
    ));
    assert!(matches!(
        aead_decrypt(&[1; 32], &sealed, b""),
        Err(CryptoError::Decrypt)
    ));
}

#[test]
fn payload_encodings_are_checked() {
    let good = aead_encrypt_with(&[0; 32], &[0; 12], b"x", b"").unwrap();
    let bad_nonce = EncryptedPayload {
        nonce_b64: "not base64".to_string(),
        ciphertext_b64: good.ciphertext_b64.clone(),
    };
    let short_nonce = EncryptedPayload {
        nonce_b64: "AAAA".to_string(),
        ciphertext_b64: good.ciphertext_b64.clone(),
    };
    let bad_ciphertext = EncryptedPayload {
        nonce_b64: good.nonce_b64.clone(),
        ciphertext_b64: "?".to_string(),
    };
    for payload in [bad_nonce, short_nonce, bad_ciphertext] {
        assert!(matches!(
            aead_decrypt(&[0; 32], &payload, b""),
            Err(CryptoError::InvalidCiphertext)
        ));
    }
}

#[test]
fn public_keys_are_32_bytes_in_canonical_base64() {
    assert_eq!(
        parse_public_key(ALICE).unwrap().to_bytes(),
        Identity::from_secret([1; 32]).public_key_bytes()
    );
    for text in ["", "AAAA", "pOCSkrZRwni5dyxWn1+puxPZBrRqtoyd+dwrRAn4ogk", "%%%%"] {
        assert!(matches!(
            parse_public_key(text),
            Err(CryptoError::InvalidPublicKey)
        ));
    }
}

#[test]
fn header_is_bound_as_text() {
    let header = RatchetHeader {
        dh_public_b64: "key".to_string(),
        pn: 0,
        n: 4_294_967_295,
    };
    assert_eq!(header_aad(&header), b"hdr-v1|key|0|4294967295");
}

#[test]
fn headers_and_transcripts_are_told_apart() {
    let header = |dh: &str, pn: u32, n: u32| {
        header_aad(&RatchetHeader { dh_public_b64: dh.to_string(), pn, n })
    };
    let headers = [
        header("k", 1, 23),
        header("k", 12, 3),
        header("k|1", 2, 3),
        header("k|1|2", 3, 0),
        header("k", 0, 0),
    ];
    let transcripts = [
        handshake_transcript(ALICE, BOB, ALICE_EPHEMERAL, "http://a"),
        handshake_transcript(BOB, ALICE, ALICE_EPHEMERAL, "http://a"),
        handshake_transcript(ALICE, BOB, BOB_EPHEMERAL, "http://a"),
        handshake_transcript(ALICE, BOB, ALICE_EPHEMERAL, ""),
        handshake_transcript(ALICE, BOB, ALICE_EPHEMERAL, "http://a|"),
    ];
    for list in [headers, transcripts] {
        for i in 0..list.len() {
            for j in 0..i {
                assert_ne!(list[i], list[j]);
            }
        }
    }
}

#[test]
fn handshake_messages() {
    let alice = Identity::from_secret([1; 32]);
    let bob = Identity::from_secret([2; 32]);
    let (init, offer) = HandshakeInitiator::start_with(
        &alice,
        BOB,
        "http://alice:7420",
        Identity::from_secret([3; 32]),
        &numbered(0),
    )
    .unwrap();
    assert_eq!(offer.identity_public_key_b64, ALICE);
    assert_eq!(offer.ephemeral_public_key_b64, ALICE_EPHEMERAL);
    assert_eq!(offer.listen_url, "http://alice:7420");
    assert_eq!(offer.proof.nonce_b64, "AAECAwQFBgcICQoL");
    assert_eq!(
        offer.proof.ciphertext_b64,
        "u0v56hzlprFnAodJZpzLsf+75r8hsYJC042S4zwux17FOwAIn4OZnFUviami6u1zbcCk7IuvOUBCD6YFo+7An41ozbbM7cqbg7oeOWe7es/+H/qbYby6MzEwk1wm7AHDB6AKV3W6B09xC2wIpGCo/W59tmFmCa3pzPm5xrjHiAJUlmYDeoyjXcvfqyoAMHHVT0wX77dIgF/Sv8CmKX79MAexHSr16g0s5z8hzLMZjClyG782hz9dnr8Md02nYg=="
    );
    let (session, accept) = HandshakeResponder::accept_with(
        &bob,
        &offer,
        Identity::from_secret([4; 32]),
        &numbered(12),
    )
    .unwrap();
    assert_eq!(session.peer_identity_b64(), ALICE);
    assert_eq!(accept.identity_public_key_b64, BOB);
    assert_eq!(accept.ephemeral_public_key_b64, BOB_EPHEMERAL);
    assert_eq!(
        accept.proof.ciphertext_b64,
        "ulIs49yLmXXJkq4DdBT9eg7eQJjdguCQThp2AVEs/rT4IoXgPKiqLBtqOx55S0YaLCqgEUHxFUpOzhBcpTRGNhEwySO3fU0jURkZpk5WQONNXexguHolUNuz1GkwUpmCv79rOvvwUYH8dP/hLQ0FPWL3cnZZjGULk+q5GLH6pbiuSpYi+vQpyCMVw7CwqQloLJ9l+i5/rIez4A8s7lr4mN/2bllmF3/UaZLx0CuI8sROgglCIOXdWf5gtMANmQ=="
    );
    assert_eq!(init.responder_ik_b64(), BOB);
    assert_eq!(init.finish(&accept).unwrap().peer_identity_b64(), BOB);
}

#[test]
fn session_messages() {
    let (mut alice, mut bob) = sessions();
    let m = alice
        .encrypt_with(b"hello peer", Identity::from_secret([6; 32]), &[9; 12])
        .unwrap();
    assert_eq!(m.header.dh_public_b64, ALICE_EPHEMERAL);
    assert_eq!((m.header.pn, m.header.n), (0, 0));
    assert_eq!(m.payload.ciphertext_b64, "d6eU09tLFVoEGYC94R3X4AwbSSp2K9u3pqo=");

    // The responder has no sending chain before it has read anything: a new key starts one.
    let reply = bob
        .encrypt_with(b"ack", Identity::from_secret([5; 32]), &[9; 12])
        .unwrap();
    assert_eq!(
        reply.header.dh_public_b64,
        "UKYUCbHd0DJemxa3AOcZ6XcsBwALG9d4bpB8ZT0gSV0="
    );
    assert_eq!(reply.payload.ciphertext_b64, "IbA0FHi9zHYT2BDxmDTfsE99Dw==");

    assert_eq!(bob.decrypt(&m).unwrap(), b"hello peer");
    assert_eq!(
        alice.decrypt_with(&reply, Identity::from_secret([7; 32])).unwrap(),
        b"ack"
    );
    assert_eq!(
        alice.encrypt(b"more").unwrap().header.dh_public_b64,
        Identity::from_secret([7; 32]).public_key_b64()
    );
}

#[test]
fn sealed_under_the_session() {
    let (alice, bob) = sessions();
    let payload = EncryptedPayload {
        nonce_b64: "CQkJCQkJCQkJCQkJ".to_string(),
        ciphertext_b64: "1DV/TPNtxMLKPFRSQFbDqslIj1SqIFU=".to_string(),
    };
    assert_eq!(alice.open_auth(&payload).unwrap(), b"pull-v2");
    assert_eq!(bob.open_auth(&payload).unwrap(), b"pull-v2");
}

#[test]
fn safety_numbers() {
    assert_eq!(
        safety_number(ALICE, BOB),
        "75747 76326 98653 72306 42947 22970 63928"
    );
    assert_eq!(
        safety_number("bob", "alice"),
        "70400 18624 86926 17248 75624 94118 59845"
    );
}

#[test]
fn safety_numbers_have_one_shape() {
    for (a, b) in [("", ""), ("a", "b"), ("ü", "\u{1d11e}"), (ALICE, BOB)] {
        let number = safety_number(a, b);
        assert_eq!(number.len(), 41);
        for (i, c) in number.chars().enumerate() {
            if i % 6 == 5 {
                assert_eq!(c, ' ');
            } else {
                assert!(c.is_ascii_digit());
            }
        }
        assert_eq!(number, safety_number(b, a));
    }
}

#[test]
fn digests_are_cut_into_groups() {
    let mut digest = [0u8; 32];
    assert_eq!(digest_groups(&digest), "00000 00000 00000 00000 00000 00000 00000");
    digest[0] = 1;
    digest[6] = 1;
    digest[14] = 1;
    digest[30] = 0xff;
    digest[31] = 0xff;
    // 1, 256, 256^4 = 4294967296, and 65535 from the two bytes that are left.
    assert_eq!(digest_groups(&digest), "00001 00256 67296 00000 00000 00000 65535");
    assert_eq!(digest_groups(&[0xff; 32]), "27775 27775 27775 27775 27775 27775 65535");
}

#[test]
fn lengths_are_checked() {
    assert_eq!(nonce_of(&[7; 12]).unwrap(), [7; 12]);
    assert!(matches!(nonce_of(&[7; 11]), Err(CryptoError::InvalidCiphertext)));
    assert!(matches!(nonce_of(&[7; 13]), Err(CryptoError::InvalidCiphertext)));
    assert_eq!(PublicKey::from_slice(&[7; 32]).unwrap().to_bytes(), [7; 32]);
    assert!(matches!(
        PublicKey::from_slice(&[7; 31]),
        Err(CryptoError::InvalidPublicKey)
    ));
    assert!(check_proof(Ok(vec![1, 2]), &[1, 2]).is_ok());
    assert!(matches!(
        check_proof(Ok(vec![1, 2]), &[1, 3]),
        Err(CryptoError::HandshakeProof)
    ));
    assert!(matches!(
        check_proof(Err(CryptoError::Decrypt), &[1, 2]),
        Err(CryptoError::Decrypt)
    ));
}
