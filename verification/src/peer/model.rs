//! A peer in the abstract, and what each of its steps does.
use crate::crypto::error::CryptoError;
use crate::crypto::handshake;
use crate::crypto::handshake::{Accept, InitiatorState, Offer};
use crate::crypto::keys::KeyPair;
use crate::crypto::ratchet;
use crate::crypto::ratchet::{RatchetState, SendSide, SessionState};
use crate::crypto::trust;
use crate::net;
use crate::net::Ipv4;
use crate::peer::sessions;
use crate::peer::sessions::{Held, Ring};
use crate::peer::stamp::Timestamp;
use crate::peer::types;
use crate::peer::types::{Chat, Fault, PeerSnapshot, Pull, Refused, Status, Wire};
use crate::text;
use vstd::prelude::*;
use vstd::utf8::*;

verus! {

/// The longest message in bytes.
pub const MAX_BODY: usize = 8192;

/// How many messages wait in a mailbox at most.
pub const MAX_OUTBOX: usize = 256;

/// The session of a peer: who the other peer is, where it is reached, whether it can be dialed, and
/// the sessions that handshakes with it agreed on.
#[verifier::ext_equal]
pub struct Link {
    pub peer_url: Seq<char>,
    pub peer: Seq<char>,
    pub dialable: bool,
    pub ring: Ring,
}

/// A peer in the abstract.
#[verifier::ext_equal]
pub struct PeerState {
    pub identity: KeyPair,
    pub port: u16,
    pub advertise_host: Option<Seq<char>>,
    pub session: Option<Link>,
    pub contacts: Map<Seq<char>, Seq<char>>,
    pub messages: Seq<Chat>,
    pub outbox: Seq<Wire>,
}

/// Whether a URL is one that can be dialed.
pub open spec fn is_http(url: Seq<char>) -> bool {
    "http://"@.is_prefix_of(url) || "https://"@.is_prefix_of(url)
}

impl PeerState {
    /// A peer with nothing said and nobody to say it to.
    pub open spec fn fresh(identity: KeyPair, port: u16, host: Option<Seq<char>>) -> PeerState {
        PeerState {
            identity,
            port,
            advertise_host: net::entered(host),
            session: None,
            contacts: Map::empty(),
            messages: Seq::empty(),
            outbox: Seq::empty(),
        }
    }

    /// The keys are key pairs, the sessions have keys on both sides, and the mailbox is not over its
    /// limit.
    pub open spec fn valid(self) -> bool {
        &&& self.identity.valid()
        &&& self.session matches Some(link) ==> link.ring.valid()
        &&& self.outbox.len() <= MAX_OUTBOX
    }

    /// The base URLs under which the peer may be reached.
    pub open spec fn candidates(self, ips: Seq<Ipv4>) -> Seq<Seq<char>> {
        net::candidates(self.port, self.advertise_host, ips)
    }

    /// The URL to share with others.
    pub open spec fn share_url(self, ips: Seq<Ipv4>) -> Seq<char> {
        self.candidates(ips)[0]
    }

    /// The URL at which the other peer can dial back: none where no host is advertised.
    pub open spec fn dialable_listen_url(self, ips: Seq<Ipv4>) -> Seq<char> {
        if self.advertise_host is Some {
            self.share_url(ips)
        } else {
            Seq::empty()
        }
    }

    /// The sessions with the other peer.
    pub open spec fn ring(self) -> Ring {
        self.session->0.ring
    }

    /// The ratchet of the session that is sent under.
    pub open spec fn ratchet(self) -> RatchetState {
        self.ring().sending().ratchet
    }

    /// The peer with other sessions.
    pub open spec fn with_ring(self, ring: Ring) -> PeerState {
        PeerState { session: Some(Link { ring, ..self.session->0 }), ..self }
    }

    /// The peer with one session gone back to before a message was sealed.
    pub open spec fn with_unsent(self, i: nat, before: SendSide, after: SendSide) -> PeerState {
        match self.session {
            Some(link) => self.with_ring(link.ring.with_unsent(i, before, after)),
            None => self,
        }
    }

    /// The peer with one more message in its chat.
    pub open spec fn with_message(self, message: Chat) -> PeerState {
        PeerState { messages: self.messages.push(message), ..self }
    }
}

/// Why a listener cannot be started on a port, if it cannot: only one is started, and not on a port
/// below 1024.
pub open spec fn unlistenable(started: bool, port: u16) -> Option<Fault> {
    if started {
        Some(Fault::Message("listener already started"@))
    } else if port < 1024 {
        Some(Fault::Message("port must be between 1024 and 65535"@))
    } else {
        None
    }
}

/// What a peer does when its user asks it to connect.
pub enum Connect {
    /// The session is there already.
    Connected,
    /// The peer at this URL is asked for its identity.
    Dial(Seq<char>),
}

/// What asking to connect comes to.
pub open spec fn connecting(s: PeerState, peer_url: Seq<char>) -> Result<Connect, Fault> {
    let url = text::without_trailing(peer_url, '/');
    if !is_http(url) {
        Err(Fault::Message("peer URL must be http(s)"@))
    } else {
        match s.session {
            None => Ok(Connect::Dial(url)),
            Some(link) => if link.peer_url == url {
                Ok(Connect::Connected)
            } else if link.peer_url.len() > 0 {
                Err(Fault::Message("already connected to another peer"@))
            } else {
                Ok(Connect::Dial(url))
            },
        }
    }
}

/// What the end of a handshake comes to for the peer that started it. With a peer that it has a
/// session with already, the session goes on under the new keys, and what was sealed under the old
/// ones can still be read.
pub open spec fn joined(
    s: PeerState,
    url: Seq<char>,
    finished: Result<SessionState, CryptoError>,
) -> (PeerState, Result<(), Fault>) {
    match finished {
        Err(CryptoError::HandshakeProof) => (
            s,
            Err(Fault::Message("responder handshake proof mismatch"@)),
        ),
        Err(e) => (s, Err(Fault::Crypto(e))),
        Ok(secure) => {
            let held = Held { secure, answer: None };
            let ring = match s.session {
                Some(link) if link.peer == secure.peer => link.ring.with_agreed(held),
                _ => Ring::of(held),
            };
            let link = Link { peer_url: url, peer: secure.peer, dialable: true, ring };
            (PeerState { session: Some(link), ..s }, Ok(()))
        },
    }
}

/// What finishing a connection with the other peer's answer comes to.
pub open spec fn connected(
    s: PeerState,
    url: Seq<char>,
    initiator: InitiatorState,
    accept: Accept,
) -> (PeerState, Result<(), Fault>) {
    if accept.identity != initiator.responder {
        (s, Err(Fault::Message("handshake public key mismatch with /identity"@)))
    } else {
        joined(s, url, handshake::finished(initiator, accept))
    }
}

/// A message that is ready to be sent: where to, if the other peer can be dialed, and what the
/// session goes back to where the message is refused after all.
pub struct Sendable {
    pub dial: Option<Seq<char>>,
    pub wire: Wire,
    pub body: Seq<char>,
    pub session: nat,
    pub before: SendSide,
    pub after: SendSide,
}

/// Where the peer of a session is dialed, if it can be.
pub open spec fn dial_url(link: Link) -> Option<Seq<char>> {
    if link.dialable && link.peer_url.len() > 0 {
        Some(link.peer_url)
    } else {
        None
    }
}

/// Why a text cannot be sent, if it cannot. A peer that cannot be dialed needs room in the mailbox.
pub open spec fn unsendable(s: PeerState, body: Seq<char>) -> Option<Fault> {
    if text::trimmed(body).len() == 0 {
        Some(Fault::Message("message must not be empty"@))
    } else if encode_utf8(body).len() > MAX_BODY {
        Some(Fault::Message("message too long"@))
    } else {
        match s.session {
            None => Some(Fault::Message("not connected to a peer"@)),
            Some(link) => if dial_url(link) is None && s.outbox.len() >= MAX_OUTBOX {
                Some(Fault::Message("outbox full; peer is not pulling"@))
            } else {
                None
            },
        }
    }
}

/// What making a text ready to be sent comes to, given the key pair and the nonce drawn for it.
pub open spec fn sending(s: PeerState, body: Seq<char>, fresh: KeyPair, nonce: Seq<u8>) -> (
    PeerState,
    Result<Sendable, Fault>,
) {
    match unsendable(s, body) {
        Some(fault) => (s, Err(fault)),
        None => {
            let link = s.session->0;
            let (ratchet, r) = ratchet::encrypted(
                s.ratchet(),
                fresh,
                nonce,
                encode_utf8(body),
            );
            (
                s.with_ring(link.ring.with_ratchet(link.ring.current as int, ratchet)),
                match r {
                    Err(e) => Err(Fault::Crypto(e)),
                    Ok(message) => Ok(
                        Sendable {
                            dial: dial_url(link),
                            wire: Wire { from: s.identity.text(), message },
                            body,
                            session: link.ring.current,
                            before: ratchet::send_side(s.ratchet()),
                            after: ratchet::send_side(ratchet),
                        },
                    ),
                },
            )
        },
    }
}

/// What follows once a message was sent or not: where it was not delivered it waits in the mailbox.
/// Where the mailbox is full it is refused, and the session goes back to before it was sealed.
pub open spec fn sent(
    s: PeerState,
    sendable: Sendable,
    delivered: bool,
    id: Seq<char>,
    at: Timestamp,
) -> (PeerState, Result<Chat, Fault>) {
    if !delivered && s.outbox.len() >= MAX_OUTBOX {
        (
            s.with_unsent(sendable.session, sendable.before, sendable.after),
            Err(Fault::Message("outbox full; peer is not pulling"@)),
        )
    } else {
        let message = Chat { id, direction: "out"@, body: sendable.body, at };
        let t = s.with_message(message);
        (
            if delivered {
                t
            } else {
                PeerState { outbox: s.outbox.push(sendable.wire), ..t }
            },
            Ok(message),
        )
    }
}

/// What a request for the mailbox proves.
pub open spec fn pull_phrase() -> Seq<u8> {
    encode_utf8("pull-v2"@)
}

/// Where a peer asks for what waits in the other's mailbox: nowhere, unless it has a session with
/// a peer that it can reach.
pub open spec fn polling(s: PeerState) -> Option<Seq<char>> {
    match s.session {
        Some(link) => if link.peer_url.len() > 0 {
            Some(link.peer_url)
        } else {
            None
        },
        None => None,
    }
}

/// The text of a message out of the other's mailbox, if it is one that is taken: one of a length
/// that can be sent.
pub open spec fn pulled_text(plaintext: Result<Seq<u8>, CryptoError>) -> Option<Seq<char>> {
    match plaintext {
        Err(_) => None,
        Ok(bytes) => if 0 < bytes.len() <= MAX_BODY {
            text::text_of(bytes)
        } else {
            None
        },
    }
}

/// What a message that came out of the other's mailbox comes to: it is passed over, and changes
/// nothing, unless it is one of the other peer's, can be decrypted, and holds a text of a length
/// that can be sent.
pub open spec fn pulled_one(
    s: PeerState,
    wire: Wire,
    fresh: KeyPair,
    id: Seq<char>,
    at: Timestamp,
) -> PeerState {
    match stranger(s, wire.from) {
        Some(_) => s,
        None => {
            let (ring, r) = s.ring().reading(fresh, wire.message);
            match pulled_text(r) {
                Some(body) => s.with_ring(ring).with_message(
                    Chat { id, direction: "in"@, body, at },
                ),
                None => s,
            }
        },
    }
}

/// What a key looks like that is drawn when a message is received: it is the key of no chain of the
/// session that reads the message, nor the identity of the peer; or it is the current key of that
/// session, where no such key came.
pub open spec fn drawn_for(s: PeerState, wire: Wire, fresh: KeyPair) -> bool {
    fresh.valid() && (stranger(s, wire.from) is None ==> s.ring().drawn_for(
        wire.message,
        s.identity.text(),
        fresh,
    ))
}

/// What a key looks like that is drawn when a text is sent: it is the key of no chain of the session,
/// nor the identity of the peer; or it is the current key of the session, where no such key came.
pub open spec fn drawn_to_send(s: PeerState, fresh: KeyPair) -> bool {
    fresh.valid() && (s.session is Some ==> ratchet::drawn_key(
        s.ratchet(),
        s.identity.text(),
        fresh,
    ))
}

/// Whether no message of the chat has an identifier.
pub open spec fn new_id(s: PeerState, id: Seq<char>) -> bool {
    forall|i: int| 0 <= i < s.messages.len() ==> (#[trigger] s.messages[i]).id != id
}

/// Whether the identifiers of messages are all different.
pub open spec fn ids_differ(messages: Seq<Chat>) -> bool {
    forall|i: int, j: int|
        0 <= i < j < messages.len() ==> #[trigger] messages[i].id != #[trigger] messages[j].id
}

/// What was drawn for one message that was received.
pub struct Draw {
    pub fresh: KeyPair,
    pub id: Seq<char>,
    pub at: Timestamp,
}

/// Whether keys and identifiers were drawn as they should be for messages that came out of the
/// other's mailbox, one after the other.
pub open spec fn all_drawn(s: PeerState, wires: Seq<Wire>, draws: Seq<Draw>) -> bool {
    forall|i: int|
        0 <= i < draws.len() ==> drawn_for(
            pulled(s, wires.take(i), draws.take(i)),
            wires[i],
            (#[trigger] draws[i]).fresh,
        ) && new_id(pulled(s, wires.take(i), draws.take(i)), draws[i].id)
}

/// What messages that came out of the other's mailbox come to, one after the other.
pub open spec fn pulled(s: PeerState, wires: Seq<Wire>, draws: Seq<Draw>) -> PeerState
    decreases wires.len(),
{
    if wires.len() == 0 {
        s
    } else {
        let draw = draws.last();
        pulled_one(
            pulled(s, wires.drop_last(), draws.drop_last()),
            wires.last(),
            draw.fresh,
            draw.id,
            draw.at,
        )
    }
}

/// The URL at which the peer that makes an offer can be dialed.
pub open spec fn offered_url(offer: Offer) -> Seq<char> {
    text::without_trailing(text::trimmed(offer.listen_url), '/')
}

/// Why an offer is refused before its proof is looked at, if it is.
pub open spec fn unwelcome(s: PeerState, offer: Offer) -> Option<Refused> {
    let url = offered_url(offer);
    if text::trimmed(offer.identity).len() == 0 {
        Some(Refused { status: Status::BadRequest, reason: "missing public key"@ })
    } else if url.len() > 0 && !is_http(url) {
        Some(Refused { status: Status::BadRequest, reason: "listen_url must be http(s) or empty"@ })
    } else if s.session matches Some(link) && link.peer != offer.identity {
        Some(Refused { status: Status::Conflict, reason: "already connected to another peer"@ })
    } else {
        None
    }
}

/// How an offer is refused for what is wrong with its keys or its proof.
pub open spec fn disproved(e: CryptoError) -> Refused {
    match e {
        CryptoError::InvalidCiphertext => Refused {
            status: Status::Unauthorized,
            reason: "invalid handshake proof"@,
        },
        CryptoError::Decrypt => Refused {
            status: Status::Unauthorized,
            reason: "invalid handshake proof"@,
        },
        CryptoError::HandshakeProof => Refused {
            status: Status::Unauthorized,
            reason: "handshake proof mismatch"@,
        },
        _ => Refused { status: Status::BadRequest, reason: e.text() },
    }
}

/// The answer that a peer gave to an offer before, if it did.
pub open spec fn answer_to(s: PeerState, offer: Offer) -> Option<Accept> {
    match s.session {
        Some(link) => sessions::answer_to(link.ring.held, offer),
        None => None,
    }
}

/// What the end of a handshake comes to for the peer that answers it. With a peer that it has a
/// session with already, the session stays as it is: the new keys are held beside it until the other
/// peer is known to hold them. An offer that was answered before gets the same answer again.
pub open spec fn welcomed(
    s: PeerState,
    offer: Offer,
    accepted: Result<(SessionState, Accept), CryptoError>,
) -> (PeerState, Result<Accept, Refused>) {
    match accepted {
        Err(e) => (s, Err(disproved(e))),
        Ok((secure, accept)) => {
            let held = Held { secure, answer: Some(sessions::given(offer, accept)) };
            let url = offered_url(offer);
            match s.session {
                None => {
                    let link = Link {
                        peer_url: url,
                        peer: offer.identity,
                        dialable: url.len() > 0,
                        ring: Ring::of(held),
                    };
                    (PeerState { session: Some(link), ..s }, Ok(accept))
                },
                Some(link) => match sessions::answer_to(link.ring.held, offer) {
                    Some(before) => (s, Ok(before)),
                    None => (s.with_ring(link.ring.with_offered(held)), Ok(accept)),
                },
            }
        },
    }
}

/// What an offer comes to, given the key pair and the nonce drawn for the answer.
pub open spec fn greeted(s: PeerState, offer: Offer, ephemeral: KeyPair, nonce: Seq<u8>) -> (
    PeerState,
    Result<Accept, Refused>,
) {
    match unwelcome(s, offer) {
        Some(refused) => (s, Err(refused)),
        None => welcomed(s, offer, handshake::accepted(s.identity, offer, ephemeral, nonce)),
    }
}

/// Why a request of the peer with key `from` is refused, if it is: only the peer of the session
/// may make one.
pub open spec fn stranger(s: PeerState, from: Seq<char>) -> Option<Refused> {
    match s.session {
        None => Some(Refused { status: Status::Conflict, reason: "no active session"@ }),
        Some(link) => if link.peer != from {
            Some(Refused { status: Status::Forbidden, reason: "unknown peer public key"@ })
        } else {
            None
        },
    }
}

/// The text of a message that was delivered, or why it is refused.
pub open spec fn delivered_text(plaintext: Result<Seq<u8>, CryptoError>) -> Result<
    Seq<char>,
    Refused,
> {
    match plaintext {
        Err(e) => Err(Refused { status: Status::BadRequest, reason: e.text() }),
        Ok(bytes) => match text::text_of(bytes) {
            None => Err(
                Refused { status: Status::BadRequest, reason: "plaintext is not utf-8"@ },
            ),
            Some(body) => if bytes.len() > MAX_BODY {
                Err(Refused { status: Status::BadRequest, reason: "message too long"@ })
            } else {
                Ok(body)
            },
        },
    }
}

/// What a message that was delivered comes to. One that is refused changes nothing.
pub open spec fn delivered(
    s: PeerState,
    wire: Wire,
    fresh: KeyPair,
    id: Seq<char>,
    at: Timestamp,
) -> (PeerState, Result<(), Refused>) {
    match stranger(s, wire.from) {
        Some(refused) => (s, Err(refused)),
        None => {
            let (ring, r) = s.ring().reading(fresh, wire.message);
            match delivered_text(r) {
                Err(refused) => (s, Err(refused)),
                Ok(body) => (
                    s.with_ring(ring).with_message(Chat { id, direction: "in"@, body, at }),
                    Ok(()),
                ),
            }
        },
    }
}

/// Why a request for the mailbox is refused for what its proof opened to, if it is.
pub open spec fn unproved(proved: Result<Seq<u8>, CryptoError>) -> Option<Refused> {
    match proved {
        Err(_) => Some(
            Refused { status: Status::Unauthorized, reason: "invalid pull proof"@ },
        ),
        Ok(bytes) => if bytes != pull_phrase() {
            Some(Refused { status: Status::Unauthorized, reason: "pull proof mismatch"@ })
        } else {
            None
        },
    }
}

/// What a request for the mailbox comes to: all that waits in it, in the order in which it came. The
/// session under which the request was sealed is then known to be held by the other peer.
pub open spec fn drained(s: PeerState, request: Pull) -> (PeerState, Result<Seq<Wire>, Refused>) {
    match stranger(s, request.from) {
        Some(refused) => (s, Err(refused)),
        None => match unproved(s.ring().proved(request.proof)) {
            Some(refused) => (s, Err(refused)),
            None => {
                let i = sessions::first_proving(s.ring().held, request.proof);
                (PeerState { outbox: Seq::empty(), ..s.with_ring(s.ring().known(i)) }, Ok(s.outbox))
            },
        },
    }
}

/// What verifying the other peer comes to.
pub open spec fn verifying(s: PeerState) -> (PeerState, Result<(), Fault>) {
    match s.session {
        None => (s, Err(Fault::Message("not connected to a peer"@))),
        Some(link) => (
            PeerState {
                contacts: trust::verified(s.contacts, s.identity.text(), link.peer),
                ..s
            },
            Ok(()),
        ),
    }
}

/// The safety number of a peer and the one it has a session with.
pub open spec fn safety(s: PeerState) -> Option<Seq<char>> {
    match s.session {
        Some(link) => Some(trust::number(s.identity.text(), link.peer)),
        None => None,
    }
}

/// Whether the peer of the session was verified.
pub open spec fn is_verified(s: PeerState) -> bool {
    s.session matches Some(link) && trust::trusts(s.contacts, s.identity.text(), link.peer)
}

/// Whether a snapshot shows a peer as it is, where `ips` are the addresses of the machine.
pub open spec fn shown(s: PeerState, ips: Seq<Ipv4>, r: PeerSnapshot) -> bool {
    &&& r.listen_addr@ == s.share_url(ips)
    &&& r.share_url@ == s.share_url(ips)
    &&& r.public_key_b64@ == s.identity.text()
    &&& types::text_view(r.advertise_host) == s.advertise_host
    &&& text::texts(r.candidate_urls@) == s.candidates(ips)
    &&& types::text_view(r.peer_url) == match s.session {
        Some(link) => Some(link.peer_url),
        None => None,
    }
    &&& types::text_view(r.peer_public_key_b64) == match s.session {
        Some(link) => Some(link.peer),
        None => None,
    }
    &&& r.connected == (s.session is Some)
    &&& r.peer_dialable == (s.session matches Some(link) && link.dialable)
    &&& types::text_view(r.safety_number) == safety(s)
    &&& r.trust_state@ == if is_verified(s) {
        "verified"@
    } else {
        "unverified"@
    }
    &&& types::chats(r.messages@) == s.messages
}

} // verus!
