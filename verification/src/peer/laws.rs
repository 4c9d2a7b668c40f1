//! What holds of a peer, whatever it does.
use crate::crypto::aead;
use crate::crypto::error::CryptoError;
use crate::crypto::handshake;
use crate::crypto::handshake::{Accept, InitiatorState, Offer};
use crate::crypto::keys;
use crate::crypto::keys::KeyPair;
use crate::crypto::ratchet;
use crate::crypto::replay;
use crate::crypto::trust;
use crate::net;
use crate::net::Ipv4;
use crate::peer::model;
use crate::peer::model::{Connect, PeerState, Sendable};
use crate::peer::node;
use crate::peer::sessions;
use crate::peer::sessions::Held;
use crate::peer::stamp::Timestamp;
use crate::peer::types;
use crate::peer::types::{Chat, Fault, PeerSnapshot, Pull, Refused, Status, Wire};
use crate::text;
use vstd::prelude::*;
use vstd::utf8::*;

verus! {

/// A refused offer changes nothing.
pub proof fn law_refused_offer_changes_nothing(
    s: PeerState,
    offer: Offer,
    ephemeral: KeyPair,
    nonce: Seq<u8>,
)
    requires
        model::greeted(s, offer, ephemeral, nonce).1 is Err,
    ensures
        model::greeted(s, offer, ephemeral, nonce).0 == s,
{
}

/// An offer whose proof does not open to the transcript under the keys of the identity that it
/// claims is not authorized, or malformed, and leaves the peer without a session.
pub proof fn law_unproved_offer_is_refused(
    s: PeerState,
    offer: Offer,
    ephemeral: KeyPair,
    nonce: Seq<u8>,
)
    requires
        model::unwelcome(s, offer) is None,
        handshake::checked(s.identity, offer) is Err,
    ensures
        model::greeted(s, offer, ephemeral, nonce).0 == s,
        model::greeted(s, offer, ephemeral, nonce).1 == Err::<Accept, Refused>(
            model::disproved(handshake::checked(s.identity, offer)->Err_0),
        ),
        handshake::checked(s.identity, offer)->Err_0 == CryptoError::InvalidPublicKey
            || model::disproved(handshake::checked(s.identity, offer)->Err_0).status
            == Status::Unauthorized,
{
}

/// An offer that was answered gets the same answer again, and changes nothing.
pub proof fn law_repeated_offer_changes_nothing(
    s: PeerState,
    offer: Offer,
    ephemeral: KeyPair,
    nonce: Seq<u8>,
    other: KeyPair,
    other_nonce: Seq<u8>,
)
    requires
        model::greeted(s, offer, ephemeral, nonce).1 is Ok,
    ensures
        ({
            let (after, r) = model::greeted(s, offer, ephemeral, nonce);
            model::greeted(after, offer, other, other_nonce) == (after, r)
        }),
{
    let (secure, accept) = handshake::accepted(s.identity, offer, ephemeral, nonce)->Ok_0;
    let more = Held { secure, answer: Some(sessions::given(offer, accept)) };
    let held = match s.session {
        Some(link) => link.ring.held,
        None => Seq::empty(),
    };
    sessions::lemma_one_more_answers(held, more, offer);
    assert(Seq::<Held>::empty().push(more) =~= seq![more]);
}

/// Nobody but the peer of the session gets a message into the chat, or one out of the mailbox.
pub proof fn law_strangers_are_refused(
    s: PeerState,
    wire: Wire,
    request: Pull,
    fresh: KeyPair,
    id: Seq<char>,
    at: Timestamp,
)
    ensures
        !(s.session matches Some(link) && link.peer == wire.from) ==> {
            &&& model::delivered(s, wire, fresh, id, at).1 is Err
            &&& model::delivered(s, wire, fresh, id, at).0 == s
            &&& model::pulled_one(s, wire, fresh, id, at) == s
        },
        !(s.session matches Some(link) && link.peer == request.from) ==> {
            &&& model::drained(s, request).1 is Err
            &&& model::drained(s, request).0 == s
        },
{
}

/// A refused message changes nothing: whatever else arrives between, what could be read can be
/// read, and what was read already cannot be read again.
pub proof fn law_refused_message_changes_nothing(
    s: PeerState,
    wire: Wire,
    fresh: KeyPair,
    id: Seq<char>,
    at: Timestamp,
)
    ensures
        model::delivered(s, wire, fresh, id, at).1 is Err ==> model::delivered(
            s,
            wire,
            fresh,
            id,
            at,
        ).0 == s,
        model::pulled_one(s, wire, fresh, id, at) == s || model::pulled_one(
            s,
            wire,
            fresh,
            id,
            at,
        ) == model::delivered(s, wire, fresh, id, at).0,
{
}

/// A message whose key is gone from every session is refused, where its payload opens under that key
/// alone: no message gets into the chat twice.
pub proof fn law_message_is_not_taken_twice(
    s: PeerState,
    wire: Wire,
    own: Seq<u8>,
    fresh: KeyPair,
    id: Seq<char>,
    at: Timestamp,
)
    requires
        s.valid(),
        s.session is Some,
        forall|i: int|
            0 <= i < s.ring().held.len() ==> replay::gone(
                (#[trigger] s.ring().held[i]).secure.ratchet,
                own,
            ) && replay::start_avoids(s.ring().held[i].secure.ratchet, wire.message.header, own),
        replay::opens_only_under(wire.message, own),
    ensures
        model::delivered(s, wire, fresh, id, at).1 is Err,
        model::delivered(s, wire, fresh, id, at).0 == s,
        model::pulled_one(s, wire, fresh, id, at) == s,
{
    let none = KeyPair { secret: Seq::empty(), public: Seq::empty() };
    let held = s.ring().held;
    assert forall|i: int| 0 <= i < held.len() implies ratchet::plaintext_of(
        (#[trigger] held[i]).secure.ratchet,
        wire.message,
    ) is Err by {
        replay::law_message_is_not_accepted_twice(
            held[i].secure.ratchet,
            none,
            wire.message,
            own,
        );
    }
    sessions::lemma_first_reading(held, wire.message);
    let i = sessions::first_reading(held, wire.message) as int;
    assert(i < held.len() ==> ratchet::plaintext_of(held[i].secure.ratchet, wire.message) is Err);
    assert(held[s.ring().current as int].secure == s.ring().sending());
}

/// A mailbox gives out all that was put into it, in the order in which it was put in, to a request
/// that proves to come from the peer of the session; then it is empty. Any other request leaves it
/// as it is.
pub proof fn law_mailbox_is_drained(s: PeerState, request: Pull)
    ensures
        match model::drained(s, request) {
            (after, Ok(list)) => list == s.outbox && after == (PeerState {
                outbox: Seq::empty(),
                ..s.with_ring(after.ring())
            }) && after.ring().held == s.ring().held,
            (after, Err(_)) => after == s,
        },
{
}

/// A message that was not delivered waits at the end of the mailbox, unless the mailbox is full;
/// a mailbox never grows over its limit.
pub proof fn law_mailbox_keeps_order(
    s: PeerState,
    sendable: Sendable,
    delivered: bool,
    id: Seq<char>,
    at: Timestamp,
)
    requires
        s.outbox.len() <= model::MAX_OUTBOX,
    ensures
        ({
            let (after, r) = model::sent(s, sendable, delivered, id, at);
            &&& after.outbox.len() <= model::MAX_OUTBOX
            &&& r is Ok ==> after.outbox == if delivered {
                s.outbox
            } else {
                s.outbox.push(sendable.wire)
            }
            &&& r is Err ==> after.outbox == s.outbox && s.outbox.len() == model::MAX_OUTBOX
                && !delivered
        }),
{
}

/// A refused send changes nothing, whether the text was refused before it was sealed or, for want
/// of room in the mailbox, after it could not be delivered.
pub proof fn law_refused_send_changes_nothing(
    s: PeerState,
    body: Seq<char>,
    fresh: KeyPair,
    nonce: Seq<u8>,
    delivered: bool,
    id: Seq<char>,
    at: Timestamp,
)
    requires
        s.valid(),
    ensures
        model::unsendable(s, body) is Some ==> model::sending(s, body, fresh, nonce) == (
            s,
            Err::<Sendable, Fault>(model::unsendable(s, body)->0),
        ),
        model::sending(s, body, fresh, nonce) matches (t, Ok(out)) ==> (model::sent(
            t,
            out,
            delivered,
            id,
            at,
        ).1 is Err ==> model::sent(t, out, delivered, id, at).0 == s),
{
    if model::unsendable(s, body) is None {
        ratchet::law_sealing_is_undone(s.ratchet(), fresh, nonce, encode_utf8(body));
        let ring = s.ring();
        let sealed = ratchet::encrypted(s.ratchet(), fresh, nonce, encode_utf8(body)).0;
        let moved = ring.with_ratchet(ring.current as int, sealed);
        assert(moved.with_unsent(
            ring.current,
            ratchet::send_side(s.ratchet()),
            ratchet::send_side(sealed),
        ) =~= ring);
    }
}

/// Verifying pins the peer of the session, and does not change the safety number.
pub proof fn law_verifying_pins_the_peer(s: PeerState)
    requires
        s.session is Some,
    ensures
        model::verifying(s).1 is Ok,
        model::is_verified(model::verifying(s).0),
        model::safety(model::verifying(s).0) == model::safety(s),
{
}

/// Without a session there is nobody to verify.
pub proof fn law_nobody_is_verified_without_session(s: PeerState)
    requires
        s.session is None,
    ensures
        !model::is_verified(s),
        model::verifying(s).0 == s,
        model::verifying(s).1 is Err,
{
}

/// The URL that a peer offers for dialing back reaches the other peer as it is: either none, or
/// one that can be dialed.
pub proof fn law_offered_url_is_kept(a: PeerState, ips: Seq<Ipv4>, offer: Offer)
    requires
        offer.listen_url == a.dialable_listen_url(ips),
    ensures
        model::offered_url(offer) == offer.listen_url,
        offer.listen_url.len() > 0 <==> a.advertise_host is Some,
        offer.listen_url.len() > 0 ==> model::is_http(offer.listen_url),
{
    reveal_strlit("http://");
    let url = offer.listen_url;
    if a.advertise_host is Some {
        net::lemma_first_candidate(a.port, a.advertise_host, ips);
        assert(url[0] == "http://"@[0]);
    }
    text::lemma_trimmed_same(url);
}

/// A text can be sent exactly where it holds a character that is no white space, its UTF-8 encoding
/// has at most 8192 bytes, and the peer has a session with one that it can dial, or fewer than 256
/// messages in its mailbox. In any other case the user is told what is wrong.
pub proof fn law_sendable_texts(s: PeerState, body: Seq<char>)
    ensures
        ({
            let blank = forall|i: int| 0 <= i < body.len() ==> text::white_space(#[trigger] body[i]);
            let long = encode_utf8(body).len() > 8192;
            let dialed = s.session matches Some(link) && link.dialable && link.peer_url.len() > 0;
            let full = s.outbox.len() >= 256;
            &&& model::unsendable(s, body) is None <==> !blank && !long && s.session is Some && (
            dialed || !full)
            &&& blank ==> model::unsendable(s, body) == Some(
                Fault::Message("message must not be empty"@),
            )
            &&& !blank && long ==> model::unsendable(s, body) == Some(
                Fault::Message("message too long"@),
            )
            &&& !blank && !long && s.session is None ==> model::unsendable(s, body) == Some(
                Fault::Message("not connected to a peer"@),
            )
            &&& !blank && !long && s.session is Some && !dialed && full ==> model::unsendable(
                s,
                body,
            ) == Some(Fault::Message("outbox full; peer is not pulling"@))
        }),
{
    text::law_trimmed_is_empty_for_white_space(body);
}

/// A text that can be sent is made ready: it is addressed in the name of the peer, to where the other
/// is dialed, if it can be.
pub proof fn law_sendable_text_is_made_ready(
    s: PeerState,
    body: Seq<char>,
    k: int,
    fresh: KeyPair,
    nonce: Seq<u8>,
)
    requires
        s.valid(),
        s.session is Some,
        0 <= k < body.len(),
        !text::white_space(body[k]),
        encode_utf8(body).len() <= 8192,
        (s.session->0.dialable && s.session->0.peer_url.len() > 0) || s.outbox.len() < 256,
        keys::spelled(fresh.text()),
        keys::spelled(s.ratchet().dhs->0.text()),
    ensures
        model::sending(s, body, fresh, nonce).1 matches Ok(out) && {
            &&& out.body == body
            &&& out.wire.from == s.identity.text()
            &&& out.dial == if s.session->0.dialable && s.session->0.peer_url.len() > 0 {
                Some(s.session->0.peer_url)
            } else {
                None
            }
        },
{
    law_sendable_texts(s, body);
    assert(sessions::live(s.ring().held[s.ring().current as int].secure.ratchet));
    ratchet::lemma_short_message_is_sealed(s.ratchet(), fresh, nonce, encode_utf8(body));
}

/// A peer without a session dials the URL that it is asked to connect to, whether that begins with
/// http:// or with https://, and leaves out the slashes behind it.
pub proof fn law_http_urls_are_dialed(s: PeerState, host: Seq<char>, slashes: Seq<char>)
    requires
        s.session is None,
        host.len() > 0,
        host.last() != '/',
        forall|i: int| 0 <= i < slashes.len() ==> #[trigger] slashes[i] == '/',
    ensures
        model::connecting(s, "http://"@ + host + slashes) == Ok::<Connect, Fault>(
            Connect::Dial("http://"@ + host),
        ),
        model::connecting(s, "https://"@ + host + slashes) == Ok::<Connect, Fault>(
            Connect::Dial("https://"@ + host),
        ),
{
    lemma_http(host, slashes);
}

/// A URL with something behind its scheme keeps it, and can be dialed.
proof fn lemma_http(host: Seq<char>, slashes: Seq<char>)
    requires
        host.len() > 0,
        host.last() != '/',
        forall|i: int| 0 <= i < slashes.len() ==> #[trigger] slashes[i] == '/',
    ensures
        text::without_trailing("http://"@ + host + slashes, '/') == "http://"@ + host,
        text::without_trailing("https://"@ + host + slashes, '/') == "https://"@ + host,
        model::is_http("http://"@ + host),
        model::is_http("https://"@ + host),
{
    let (a, b) = ("http://"@ + host, "https://"@ + host);
    assert(a.last() == host.last() && b.last() == host.last());
    text::law_trailing_run_is_taken_away(a, '/', slashes);
    text::law_trailing_run_is_taken_away(b, '/', slashes);
    assert(a.take("http://"@.len() as int) =~= "http://"@);
    assert(b.take("https://"@.len() as int) =~= "https://"@);
}

/// A URL that begins with neither scheme is not dialed, whatever the peer has.
pub proof fn law_other_urls_are_not_dialed(s: PeerState, url: Seq<char>)
    requires
        !"http://"@.is_prefix_of(url),
        !"https://"@.is_prefix_of(url),
    ensures
        model::connecting(s, url) == Err::<Connect, Fault>(
            Fault::Message("peer URL must be http(s)"@),
        ),
{
    lemma_without_trailing_is_prefix(url, '/');
    let u = text::without_trailing(url, '/');
    if "http://"@.is_prefix_of(u) {
        assert(url.take("http://"@.len() as int) =~= u.take("http://"@.len() as int));
    }
    if "https://"@.is_prefix_of(u) {
        assert(url.take("https://"@.len() as int) =~= u.take("https://"@.len() as int));
    }
}

proof fn lemma_without_trailing_is_prefix(s: Seq<char>, c: char)
    ensures
        text::without_trailing(s, c).len() <= s.len(),
        text::without_trailing(s, c) == s.take(text::without_trailing(s, c).len() as int),
    decreases s.len(),
{
    if s.len() > 0 && s.last() == c {
        lemma_without_trailing_is_prefix(s.drop_last(), c);
        let n = text::without_trailing(s, c).len() as int;
        assert(s.drop_last().take(n) =~= s.take(n));
    } else {
        assert(s.take(s.len() as int) =~= s);
    }
}

/// A peer with a session connects to no other: the URL of the peer that it has is there already, and
/// any other is refused, unless the peer that it has is one without a URL.
pub proof fn law_connecting_with_a_session(
    s: PeerState,
    host: Seq<char>,
    slashes: Seq<char>,
    secure: bool,
)
    requires
        s.session is Some,
        host.len() > 0,
        host.last() != '/',
        forall|i: int| 0 <= i < slashes.len() ==> #[trigger] slashes[i] == '/',
    ensures
        ({
            let url = if secure {
                "https://"@ + host
            } else {
                "http://"@ + host
            };
            model::connecting(s, url + slashes) == if s.session->0.peer_url == url {
                Ok::<Connect, Fault>(Connect::Connected)
            } else if s.session->0.peer_url.len() > 0 {
                Err(Fault::Message("already connected to another peer"@))
            } else {
                Ok(Connect::Dial(url))
            }
        }),
{
    lemma_http(host, slashes);
}

/// The URL of an offer is read without the white space around it and the slashes behind it.
pub proof fn law_offered_url_is_cleaned(
    offer: Offer,
    before: Seq<char>,
    url: Seq<char>,
    slashes: Seq<char>,
    after: Seq<char>,
)
    requires
        offer.listen_url == before + (url + slashes) + after,
        forall|i: int| 0 <= i < before.len() ==> text::white_space(#[trigger] before[i]),
        forall|i: int| 0 <= i < after.len() ==> text::white_space(#[trigger] after[i]),
        forall|i: int| 0 <= i < slashes.len() ==> #[trigger] slashes[i] == '/',
        url.len() > 0,
        !text::white_space(url[0]),
        !text::white_space(url.last()),
        url.last() != '/',
    ensures
        model::offered_url(offer) == url,
{
    text::law_white_space('/');
    let u = url + slashes;
    assert(u[0] == url[0]);
    assert(u.last() == if slashes.len() > 0 {
        slashes[slashes.len() - 1]
    } else {
        url.last()
    });
    text::law_trimming_takes_white_space_away(before, u, after);
    text::law_trailing_run_is_taken_away(url, '/', slashes);
}

/// Which offers are refused before their proof is looked at, and how: those without a key, those with
/// a URL that cannot be dialed, and those of another peer than the one of the session.
pub proof fn law_unwelcome_offers(s: PeerState, offer: Offer)
    ensures
        ({
            let url = model::offered_url(offer);
            let nameless = forall|i: int|
                0 <= i < offer.identity.len() ==> text::white_space(#[trigger] offer.identity[i]);
            let odd = url.len() > 0 && !"http://"@.is_prefix_of(url) && !"https://"@.is_prefix_of(
                url,
            );
            let other = s.session matches Some(link) && link.peer != offer.identity;
            model::unwelcome(s, offer) == if nameless {
                Some(Refused { status: Status::BadRequest, reason: "missing public key"@ })
            } else if odd {
                Some(
                    Refused {
                        status: Status::BadRequest,
                        reason: "listen_url must be http(s) or empty"@,
                    },
                )
            } else if other {
                Some(
                    Refused { status: Status::Conflict, reason: "already connected to another peer"@ },
                )
            } else {
                None
            }
        }),
{
    text::law_trimmed_is_empty_for_white_space(offer.identity);
}

/// Any text of at most 8192 bytes that is delivered is taken, and one out of a mailbox too unless it
/// is empty; a longer one is not.
pub proof fn law_texts_are_taken(body: Seq<char>)
    ensures
        encode_utf8(body).len() <= 8192 ==> model::delivered_text(Ok(encode_utf8(body))) == Ok::<
            Seq<char>,
            Refused,
        >(body),
        encode_utf8(body).len() > 8192 ==> model::delivered_text(Ok(encode_utf8(body))) == Err::<
            Seq<char>,
            Refused,
        >(Refused { status: Status::BadRequest, reason: "message too long"@ }),
        model::pulled_text(Ok(encode_utf8(body))) == if 0 < body.len() && encode_utf8(body).len()
            <= 8192 {
            Some(body)
        } else {
            None
        },
{
    encode_utf8_valid_utf8(body);
    encode_utf8_decode_utf8(body);
    if body.len() > 0 {
        encode_utf8_first_scalar(body);
    }
}

/// Bytes that are no text, and messages that cannot be decrypted, are not taken.
pub proof fn law_other_bytes_are_not_taken(bytes: Seq<u8>, e: CryptoError)
    requires
        !valid_utf8(bytes),
    ensures
        model::delivered_text(Ok(bytes)) == Err::<Seq<char>, Refused>(
            Refused { status: Status::BadRequest, reason: "plaintext is not utf-8"@ },
        ),
        model::delivered_text(Err(e)) == Err::<Seq<char>, Refused>(
            Refused { status: Status::BadRequest, reason: e.text() },
        ),
        model::pulled_text(Ok(bytes)) is None,
        model::pulled_text(Err(e)) is None,
{
}

/// How a request of somebody else than the peer of the session is answered, and that of the peer of
/// the session is heard.
pub proof fn law_who_is_heard(s: PeerState, from: Seq<char>)
    ensures
        model::stranger(s, from) == match s.session {
            None => Some(Refused { status: Status::Conflict, reason: "no active session"@ }),
            Some(link) => if from == link.peer {
                None
            } else {
                Some(Refused { status: Status::Forbidden, reason: "unknown peer public key"@ })
            },
        },
{
}

/// How a bad proof of an offer is answered: as not authorized where it does not open, or opens to
/// something else, and as malformed where a key is.
pub proof fn law_bad_proofs_are_answered()
    ensures
        model::disproved(CryptoError::Decrypt) == (Refused {
            status: Status::Unauthorized,
            reason: "invalid handshake proof"@,
        }),
        model::disproved(CryptoError::InvalidCiphertext) == model::disproved(CryptoError::Decrypt),
        model::disproved(CryptoError::HandshakeProof) == (Refused {
            status: Status::Unauthorized,
            reason: "handshake proof mismatch"@,
        }),
        model::disproved(CryptoError::InvalidPublicKey) == (Refused {
            status: Status::BadRequest,
            reason: "invalid public key encoding"@,
        }),
        model::disproved(CryptoError::Encrypt) == (Refused {
            status: Status::BadRequest,
            reason: "encryption failed"@,
        }),
{
}

/// A request for the mailbox is good exactly where its proof opens to the seven bytes that it should
/// hold; otherwise it is not authorized.
pub proof fn law_mailbox_opens_to_the_phrase(bytes: Seq<u8>, e: CryptoError)
    ensures
        model::unproved(Ok(bytes)) is None <==> bytes == seq![
            0x70u8,
            0x75,
            0x6c,
            0x6c,
            0x2d,
            0x76,
            0x32,
        ],
        model::unproved(Ok(bytes)) matches Some(refused) ==> refused == (Refused {
            status: Status::Unauthorized,
            reason: "pull proof mismatch"@,
        }),
        model::unproved(Err(e)) == Some(
            Refused { status: Status::Unauthorized, reason: "invalid pull proof"@ },
        ),
{
    reveal_strlit("pull-v2");
    reveal_with_fuel(encode_utf8, 8);
    let phrase = encode_utf8("pull-v2"@);
    is_ascii_chars_encode_utf8("pull-v2"@);
    assert(phrase =~= seq![0x70u8, 0x75, 0x6c, 0x6c, 0x2d, 0x76, 0x32]);
}

/// A peer asks for its messages exactly where it has a session with a peer whose URL it knows.
pub proof fn law_who_is_polled(s: PeerState, url: Seq<char>)
    ensures
        model::polling(s) == Some(url) <==> s.session is Some && s.session->0.peer_url == url
            && url.len() > 0,
{
}

/// What a snapshot shows: the peer of the session, if there is one, its URL, the safety number with
/// it and whether it was verified, and all messages of the chat in their order.
pub proof fn law_snapshot_shows_the_peer(s: PeerState, ips: Seq<Ipv4>, r: PeerSnapshot)
    requires
        model::shown(s, ips, r),
    ensures
        r.connected <==> s.session is Some,
        r.public_key_b64@ == s.identity.text(),
        r.listen_addr@ == s.candidates(ips)[0],
        r.share_url@ == s.candidates(ips)[0],
        text::texts(r.candidate_urls@) == net::candidates(s.port, s.advertise_host, ips),
        r.advertise_host is Some <==> s.advertise_host is Some,
        r.advertise_host matches Some(host) ==> host@ == s.advertise_host->0,
        r.messages@.len() == s.messages.len(),
        forall|i: int|
            0 <= i < s.messages.len() ==> {
                let m = #[trigger] r.messages@[i];
                &&& m.id@ == s.messages[i].id
                &&& m.body@ == s.messages[i].body
                &&& m.direction@ == s.messages[i].direction
                &&& m.at == s.messages[i].at
            },
        s.session is None ==> r.peer_url is None && r.peer_public_key_b64 is None
            && !r.peer_dialable && r.safety_number is None && r.trust_state@ == "unverified"@,
        s.session matches Some(link) ==> {
            &&& r.peer_url matches Some(url) && url@ == link.peer_url
            &&& r.peer_public_key_b64 matches Some(key) && key@ == link.peer
            &&& r.peer_dialable == link.dialable
            &&& r.safety_number matches Some(number) && number@ == trust::number(
                s.identity.text(),
                link.peer,
            )
            &&& r.trust_state@ == "verified"@ <==> s.contacts.contains_key(link.peer)
                && s.contacts[link.peer] == trust::number(s.identity.text(), link.peer)
            &&& r.trust_state@ == "verified"@ || r.trust_state@ == "unverified"@
        },
{
    reveal_strlit("verified");
    reveal_strlit("unverified");
    assert("verified"@.len() != "unverified"@.len());
    assert(types::chats(r.messages@).len() == r.messages@.len());
    assert forall|i: int| 0 <= i < s.messages.len() implies {
        let m = #[trigger] r.messages@[i];
        &&& m.id@ == s.messages[i].id
        &&& m.body@ == s.messages[i].body
        &&& m.direction@ == s.messages[i].direction
        &&& m.at == s.messages[i].at
    } by {
        assert(types::chats(r.messages@)[i] == r.messages@[i]@);
    }
}

/// A message that was sent is in the chat as its user's own, behind all that is there already, and
/// what else the peer has stays as it is but for the mailbox.
pub proof fn law_sent_message_is_in_the_chat(
    s: PeerState,
    out: Sendable,
    delivered: bool,
    id: Seq<char>,
    at: Timestamp,
)
    requires
        model::sent(s, out, delivered, id, at).1 is Ok,
    ensures
        ({
            let (after, r) = model::sent(s, out, delivered, id, at);
            &&& after.messages.drop_last() == s.messages
            &&& r == Ok::<Chat, Fault>(after.messages.last())
            &&& after.messages.last().body == out.body
            &&& after.messages.last().direction == "out"@
            &&& after.messages.last().id == id
            &&& after.messages.last().at == at
            &&& after == (PeerState { messages: after.messages, outbox: after.outbox, ..s })
        }),
{
    assert(model::sent(s, out, delivered, id, at).0.messages.drop_last() =~= s.messages);
}

/// A message that was taken is in the chat as the other's, behind all that is there already, and
/// what else the peer has stays as it is but for the sessions.
pub proof fn law_taken_message_is_in_the_chat(
    s: PeerState,
    wire: Wire,
    fresh: KeyPair,
    id: Seq<char>,
    at: Timestamp,
)
    requires
        model::delivered(s, wire, fresh, id, at).1 is Ok,
    ensures
        ({
            let after = model::delivered(s, wire, fresh, id, at).0;
            &&& after.messages.drop_last() == s.messages
            &&& after.messages.last().direction == "in"@
            &&& after.messages.last().id == id
            &&& after.messages.last().at == at
            &&& s.ring().reading(fresh, wire.message).1 == Ok::<Seq<u8>, CryptoError>(
                encode_utf8(after.messages.last().body),
            )
            &&& after.identity == s.identity && after.contacts == s.contacts && after.outbox
                == s.outbox && after.port == s.port && after.advertise_host == s.advertise_host
            &&& after.session->0.peer == s.session->0.peer && after.session->0.peer_url
                == s.session->0.peer_url && after.session->0.dialable == s.session->0.dialable
        }),
{
    let after = model::delivered(s, wire, fresh, id, at).0;
    assert(after.messages.drop_last() =~= s.messages);
    let bytes = s.ring().reading(fresh, wire.message).1->Ok_0;
    decode_utf8_encode_utf8(bytes);
}

/// A new peer has its identity, its port and the host that was entered, and nothing else.
pub proof fn law_new_peer(identity: KeyPair, port: u16, host: Option<Seq<char>>)
    ensures
        ({
            let s = PeerState::fresh(identity, port, host);
            &&& s.identity == identity
            &&& s.port == port
            &&& s.advertise_host == net::entered(host)
            &&& s.session is None
            &&& s.messages.len() == 0
            &&& s.outbox.len() == 0
            &&& forall|key: Seq<char>| !#[trigger] s.contacts.contains_key(key)
        }),
{
}

/// The URL to share is that of the advertised host; without one it is that of the first address of
/// the machine, or of the loopback address. The other peer is told to dial it only where a host is
/// advertised.
pub proof fn law_shared_url(s: PeerState, ips: Seq<Ipv4>)
    requires
        s.advertise_host matches Some(h) ==> h.len() > 0 && text::trimmed(h) == h,
    ensures
        s.share_url(ips) == match s.advertise_host {
            Some(h) => net::advertised_url(h, s.port),
            None => if ips.len() > 0 {
                "http://"@ + net::dotted(ips[0]) + ":"@ + text::decimal(s.port as nat)
            } else {
                "http://"@ + "127.0.0.1"@ + ":"@ + text::decimal(s.port as nat)
            },
        },
        s.dialable_listen_url(ips) == if s.advertise_host is Some {
            s.share_url(ips)
        } else {
            Seq::empty()
        },
{
    net::law_candidates(s.port, s.advertise_host, ips);
}

/// Making a text ready changes nothing of a peer but the session that it sends under.
pub proof fn law_sealing_changes_one_session(
    s: PeerState,
    body: Seq<char>,
    fresh: KeyPair,
    nonce: Seq<u8>,
)
    requires
        s.valid(),
        s.session is Some,
    ensures
        ({
            let t = model::sending(s, body, fresh, nonce).0;
            &&& t == s.with_ring(t.ring())
            &&& t.ring().current == s.ring().current
            &&& t.ring().held.len() == s.ring().held.len()
            &&& forall|k: int|
                0 <= k < s.ring().held.len() && k != s.ring().current ==> #[trigger] t.ring().held[k]
                    == s.ring().held[k]
            &&& t.ring().sending().auth_key == s.ring().sending().auth_key
        }),
{
}

/// A connection that was finished is one to the peer that was asked for its identity, at the URL that
/// was dialed, and the peer can be dialed there. What was said and what waits stays, and so do the
/// contacts.
pub proof fn law_finished_connection(
    s: PeerState,
    url: Seq<char>,
    initiator: InitiatorState,
    accept: Accept,
)
    ensures
        ({
            let (t, r) = model::connected(s, url, initiator, accept);
            &&& r is Ok ==> {
                &&& accept.identity == initiator.responder
                &&& t.session matches Some(link) && link.peer == initiator.responder && link.peer_url
                    == url && link.dialable
                &&& t.identity == s.identity && t.port == s.port && t.advertise_host
                    == s.advertise_host
                &&& t.contacts == s.contacts && t.messages == s.messages && t.outbox == s.outbox
            }
            &&& r is Err ==> t == s
            &&& accept.identity != initiator.responder ==> r == Err::<(), Fault>(
                Fault::Message("handshake public key mismatch with /identity"@),
            )
            &&& accept.identity == initiator.responder ==> match handshake::finished(
                initiator,
                accept,
            ) {
                Ok(_) => r is Ok,
                Err(CryptoError::HandshakeProof) => r == Err::<(), Fault>(
                    Fault::Message("responder handshake proof mismatch"@),
                ),
                Err(e) => r == Err::<(), Fault>(Fault::Crypto(e)),
            }
        }),
{
}

/// A peer without a session that answers an offer has its session with the peer that made it, at the
/// URL of the offer, and can dial it where the offer holds a URL. What was said and what waits stays,
/// and so do the contacts.
pub proof fn law_answered_offer_starts_the_session(
    s: PeerState,
    offer: Offer,
    ephemeral: KeyPair,
    nonce: Seq<u8>,
)
    requires
        s.session is None,
        model::greeted(s, offer, ephemeral, nonce).1 is Ok,
    ensures
        ({
            let t = model::greeted(s, offer, ephemeral, nonce).0;
            &&& t.session matches Some(link) && link.peer == offer.identity && link.peer_url
                == model::offered_url(offer) && link.dialable == (link.peer_url.len() > 0)
            &&& t.identity == s.identity && t.port == s.port && t.advertise_host
                == s.advertise_host
            &&& t.contacts == s.contacts && t.messages == s.messages && t.outbox == s.outbox
        }),
{
}

/// An offer is answered exactly where it is not unwelcome, its proof is right, and the answer can be
/// sealed; the answer is made in the name of the peer.
pub proof fn law_which_offers_are_answered(
    s: PeerState,
    offer: Offer,
    ephemeral: KeyPair,
    nonce: Seq<u8>,
)
    requires
        model::answer_to(s, offer) is None,
    ensures
        model::greeted(s, offer, ephemeral, nonce).1 is Ok <==> model::unwelcome(s, offer) is None
            && handshake::accepted(s.identity, offer, ephemeral, nonce) is Ok,
        model::greeted(s, offer, ephemeral, nonce).1 matches Ok(accept) ==> accept.identity
            == s.identity.text() && accept.ephemeral == ephemeral.text(),
{
}

/// Verifying changes nothing but the contacts, and of them only that of the peer of the session.
pub proof fn law_verifying_changes_one_contact(s: PeerState, other: Seq<char>)
    requires
        s.session is Some,
        other != s.session->0.peer,
    ensures
        ({
            let t = model::verifying(s).0;
            &&& t == (PeerState { contacts: t.contacts, ..s })
            &&& t.contacts.contains_key(other) <==> s.contacts.contains_key(other)
            &&& s.contacts.contains_key(other) ==> t.contacts[other] == s.contacts[other]
            &&& t.contacts.contains_key(s.session->0.peer)
            &&& t.contacts[s.session->0.peer] == trust::number(
                s.identity.text(),
                s.session->0.peer,
            )
        }),
{
}

/// A mailbox that is asked for by the peer of the session, with a proof that opens under one of the
/// sessions to the phrase, gives out what it holds.
pub proof fn law_proved_request_is_answered(s: PeerState, request: Pull, k: int)
    requires
        s.session is Some,
        request.from == s.session->0.peer,
        0 <= k < s.ring().held.len(),
        aead::opened(
            s.ring().held[k].secure.auth_key,
            request.proof,
            ratchet::auth_label(),
        ) == Ok::<Seq<u8>, CryptoError>(model::pull_phrase()),
        forall|i: int|
            0 <= i < k ==> aead::opened(
                (#[trigger] s.ring().held[i]).secure.auth_key,
                request.proof,
                ratchet::auth_label(),
            ) is Err,
    ensures
        model::drained(s, request).1 == Ok::<Seq<Wire>, Refused>(s.outbox),
        model::drained(s, request).0.outbox.len() == 0,
        model::drained(s, request).0.messages == s.messages,
{
    sessions::lemma_proves_in(s.ring(), k as nat, request.proof);
}

/// The counts of a chain have room for a text unless 4294967295 messages were sent on it, and for a
/// message unless one of the sessions has counted so many, or the message bears the last number.
pub proof fn law_counts_have_room(s: PeerState, body: Seq<char>, wire: Wire)
    ensures
        s.ratchet().ns < 4294967295 || s.session is None ==> node::can_send(s, body),
        (forall|i: int|
            0 <= i < s.ring().held.len() ==> (#[trigger] s.ring().held[i]).secure.ratchet.nr
                < 4294967295) && wire.message.header.n < 4294967295 ==> node::can_receive(s, wire),
        s.session matches Some(link) && link.peer != wire.from ==> node::can_receive(s, wire),
{
    if (forall|i: int|
        0 <= i < s.ring().held.len() ==> (#[trigger] s.ring().held[i]).secure.ratchet.nr
            < 4294967295) && wire.message.header.n < 4294967295 {
        assert forall|i: int| 0 <= i < s.ring().held.len() implies ratchet::can_receive(
            (#[trigger] s.ring().held[i]).secure.ratchet,
            wire.message.header,
        ) by {
            ratchet::lemma_skipped_count(
                s.ring().held[i].secure.ratchet,
                wire.message.header.n as nat,
            );
        }
    }
}

/// A port can be listened on where no listener was started and the port is from 1024 to 65535.
pub proof fn law_ports_to_listen_on(started: bool, port: u16)
    ensures
        model::unlistenable(started, port) is None <==> !started && 1024 <= port <= 65535,
        started ==> model::unlistenable(started, port) == Some(
            Fault::Message("listener already started"@),
        ),
        !started && port < 1024 ==> model::unlistenable(started, port) == Some(
            Fault::Message("port must be between 1024 and 65535"@),
        ),
{
}

/// Messages that are entered under new identifiers keep the identifiers of a chat all different.
pub proof fn law_identifiers_stay_different(s: PeerState, message: Chat)
    requires
        model::ids_differ(s.messages),
        model::new_id(s, message.id),
    ensures
        model::ids_differ(s.with_message(message).messages),
{
    let all = s.messages.push(message);
    assert forall|i: int, j: int| 0 <= i < j < all.len() implies #[trigger] all[i].id
        != #[trigger] all[j].id by {
        if j < s.messages.len() {
            assert(s.messages[i].id != s.messages[j].id);
        } else {
            assert(s.messages[i].id != message.id);
        }
    }
}

} // verus!
