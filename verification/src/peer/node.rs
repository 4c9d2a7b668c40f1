//! The peer itself.
//!
//! It holds no connection: what goes over the network is handed in and out. A step that needs the
//! network is cut in two, one that says what to send, and one that takes what came back.
use crate::crypto::aead;
use crate::crypto::aead::NONCE_LEN;
use crate::crypto::error::CryptoError;
use crate::crypto::handshake;
use crate::crypto::handshake::{
    Accept, HandshakeAccept, HandshakeInitiator, HandshakeOffer, HandshakeResponder,
    InitiatorState, Offer,
};
use crate::crypto::keys;
use crate::crypto::keys::{Identity, KeyPair};
use crate::crypto::primitives;
use crate::crypto::ratchet;
use crate::crypto::ratchet::{RatchetMessage, SecureSession, SendMark};
use crate::crypto::trust::{safety_number, ContactBook, TrustState};
use crate::net;
use crate::net::Ipv4;
use crate::peer::model;
use crate::peer::model::{Connect, Draw, Link, PeerState, Sendable, MAX_BODY, MAX_OUTBOX};
use crate::peer::sessions;
use crate::peer::sessions::{Opened, Ring, Sessions};
use crate::peer::stamp;
use crate::peer::stamp::Timestamp;
use crate::peer::types;
use crate::peer::types::{
    Chat, ChatMessage, Fault, NetworkHints, PeerError, PeerSnapshot, PullRequest, Refusal, Refused,
    Status, Wire, WireMessage,
};
use crate::text;
use vstd::prelude::*;
use vstd::string::*;
use vstd::utf8::*;

verus! {

/// The session with the other peer.
struct Session {
    peer_url: String,
    peer_public_key_b64: String,
    peer_dialable: bool,
    sessions: Sessions,
}

impl View for Session {
    type V = Link;

    closed spec fn view(&self) -> Link {
        Link {
            peer_url: self.peer_url@,
            peer: self.peer_public_key_b64@,
            dialable: self.peer_dialable,
            ring: self.sessions@,
        }
    }
}

/// A peer: its identity, where it listens, its session with one other peer, the contacts that were
/// verified, the messages of the chat, and the mailbox of messages that the other peer has yet to
/// pull.
pub struct PeerNode {
    identity: Identity,
    port: u16,
    advertise_host: Option<String>,
    session: Option<Session>,
    contacts: ContactBook,
    messages: Vec<ChatMessage>,
    outbox: Vec<WireMessage>,
}

impl View for PeerNode {
    type V = PeerState;

    closed spec fn view(&self) -> PeerState {
        PeerState {
            identity: self.identity@,
            port: self.port,
            advertise_host: types::text_view(self.advertise_host),
            session: match self.session {
                Some(session) => Some(session@),
                None => None,
            },
            contacts: self.contacts@,
            messages: types::chats(self.messages@),
            outbox: types::wires(self.outbox@),
        }
    }
}

/// What a peer does when its user asks it to connect.
#[derive(Debug, Clone)]
pub enum ConnectStep {
    /// The session is there already.
    Connected,
    /// The peer at this URL is to be asked for its identity.
    Dial(String),
}

impl View for ConnectStep {
    type V = Connect;

    open spec fn view(&self) -> Connect {
        match self {
            ConnectStep::Connected => Connect::Connected,
            ConnectStep::Dial(url) => Connect::Dial(url@),
        }
    }
}

/// A message that is ready to be sent: where to, if the other peer can be dialed, and what the
/// session goes back to where the message is refused after all.
pub struct Outgoing {
    pub dial: Option<String>,
    pub wire: WireMessage,
    pub body: String,
    pub session: usize,
    pub before: SendMark,
    pub after: SendMark,
}

impl View for Outgoing {
    type V = Sendable;

    open spec fn view(&self) -> Sendable {
        Sendable {
            dial: types::text_view(self.dial),
            wire: self.wire@,
            body: self.body@,
            session: self.session as nat,
            before: self.before@,
            after: self.after@,
        }
    }
}

/// Whether making an offer came to `outcome`.
pub open spec fn offering_as(
    outcome: Result<(InitiatorState, Offer), CryptoError>,
    r: Result<(HandshakeInitiator, HandshakeOffer), PeerError>,
) -> bool {
    match r {
        Ok(started) => handshake::offered_as(outcome, Ok(started)),
        Err(e) => outcome matches Err(cause) && e@ == Fault::Crypto(cause),
    }
}

/// Whether making a text ready to be sent came to `outcome`. A message that is ready can be read by
/// the other peer.
pub open spec fn sending_as(
    s: PeerState,
    body: Seq<char>,
    fresh: KeyPair,
    outcome: (PeerState, Result<Sendable, Fault>),
    after: PeerState,
    r: Result<Outgoing, PeerError>,
) -> bool {
    &&& after == outcome.0
    &&& match r {
        Ok(out) => outcome.1 == Ok::<Sendable, Fault>(out@) && ratchet::encrypts(
            s.ratchet(),
            fresh,
            encode_utf8(body),
            after.ratchet(),
            out.wire.message@,
        ),
        Err(e) => outcome.1 == Err::<Sendable, Fault>(e@),
    }
}

/// Whether sending came to `outcome`.
pub open spec fn sent_as(
    outcome: (PeerState, Result<Chat, Fault>),
    after: PeerState,
    r: Result<ChatMessage, PeerError>,
) -> bool {
    &&& after == outcome.0
    &&& match r {
        Ok(message) => outcome.1 == Ok::<Chat, Fault>(message@),
        Err(e) => outcome.1 == Err::<Chat, Fault>(e@),
    }
}

/// Whether an offer came to `outcome`. An answer that is given for the first time can be finished by
/// the peer that made the offer.
pub open spec fn greeted_as(
    s: PeerState,
    offer: Offer,
    ephemeral: KeyPair,
    outcome: (PeerState, Result<Accept, Refused>),
    after: PeerState,
    r: Result<HandshakeAccept, Refusal>,
) -> bool {
    &&& after == outcome.0
    &&& match r {
        Ok(accept) => outcome.1 == Ok::<Accept, Refused>(accept@) && (model::answer_to(s, offer)
            is None ==> handshake::answers(s.identity, offer, ephemeral, accept@)),
        Err(refusal) => outcome.1 == Err::<Accept, Refused>(refusal@),
    }
}

/// Whether a message that was delivered came to `outcome`.
pub open spec fn delivered_as(
    outcome: (PeerState, Result<(), Refused>),
    after: PeerState,
    r: Result<(), Refusal>,
) -> bool {
    &&& after == outcome.0
    &&& match r {
        Ok(_) => outcome.1 == Ok::<(), Refused>(()),
        Err(refusal) => outcome.1 == Err::<(), Refused>(refusal@),
    }
}

/// Whether the count of sent messages has room for this one, if it can be sent.
pub open spec fn can_send(s: PeerState, body: Seq<char>) -> bool {
    model::unsendable(s, body) is None ==> ratchet::can_send(s.ratchet())
}

/// Whether the counts of received messages have room for this one, if it comes from the peer of the
/// session.
pub open spec fn can_receive(s: PeerState, wire: Wire) -> bool {
    model::stranger(s, wire.from) is None ==> s.ring().can_receive(wire.message)
}

/// What every draw for a message that was received looks like.
pub open spec fn drawn(draw: Draw) -> bool {
    draw.fresh.valid() && stamp::stamped(draw.id, draw.at)
}

/// Bytes, or why there are none, in the abstract.
pub open spec fn bytes_view(r: Result<Vec<u8>, CryptoError>) -> Result<Seq<u8>, CryptoError> {
    match r {
        Ok(bytes) => Ok(bytes@),
        Err(e) => Err(e),
    }
}

/// A text that may be missing, in the abstract.
pub open spec fn str_view(s: Option<&str>) -> Option<Seq<char>> {
    match s {
        Some(s) => Some(s@),
        None => None,
    }
}

/// Whether a URL is one that can be dialed.
fn is_http(url: &str) -> (r: bool)
    ensures
        r == model::is_http(url@),
{
    text::starts_with(url, "http://") || text::starts_with(url, "https://")
}

/// The URL at which the peer that makes an offer can be dialed.
fn offered_url(offer: &HandshakeOffer) -> (r: String)
    ensures
        r@ == model::offered_url(offer@),
{
    let trimmed = text::trim(offer.listen_url.as_str());
    text::trim_end_of(trimmed.as_str(), '/')
}

/// The text of a message out of the other's mailbox, if it is one that is taken: one of a length
/// that can be sent.
pub fn pulled_text(plaintext: Result<Vec<u8>, CryptoError>) -> (r: Option<String>)
    ensures
        types::text_view(r) == model::pulled_text(bytes_view(plaintext)),
{
    match plaintext {
        Ok(plaintext) => {
            let len: usize = plaintext.len();
            if 0 < len && len <= MAX_BODY {
                text::read_text(plaintext)
            } else {
                None
            }
        },
        Err(_) => None,
    }
}

/// The text of a message that was delivered, if it is a text that is not too long.
pub fn delivered_text(plaintext: Result<Vec<u8>, CryptoError>) -> (r: Result<String, Refusal>)
    ensures
        match r {
            Ok(body) => model::delivered_text(bytes_view(plaintext)) == Ok::<Seq<char>, Refused>(
                body@,
            ),
            Err(refusal) => model::delivered_text(bytes_view(plaintext)) == Err::<
                Seq<char>,
                Refused,
            >(refusal@),
        },
{
    let plaintext = match plaintext {
        Ok(plaintext) => plaintext,
        Err(e) => return Err(types::refuse(Status::BadRequest, e.message().as_str())),
    };
    let len: usize = plaintext.len();
    let body = match text::read_text(plaintext) {
        Some(body) => body,
        None => return Err(types::refuse(Status::BadRequest, "plaintext is not utf-8")),
    };
    if len > MAX_BODY {
        return Err(types::refuse(Status::BadRequest, "message too long"));
    }
    Ok(body)
}

/// Whether what the proof of a request for the mailbox opened to is the phrase that it should hold.
pub fn check_pull(proved: Result<Vec<u8>, CryptoError>) -> (r: Result<(), Refusal>)
    ensures
        match r {
            Ok(_) => model::unproved(bytes_view(proved)) is None,
            Err(refusal) => model::unproved(bytes_view(proved)) == Some(refusal@),
        },
{
    match proved {
        Ok(proved) => {
            if text::same_bytes(proved.as_slice(), "pull-v2".as_bytes()) {
                Ok(())
            } else {
                Err(types::refuse(Status::Unauthorized, "pull proof mismatch"))
            }
        },
        Err(_) => Err(types::refuse(Status::Unauthorized, "invalid pull proof")),
    }
}

impl PeerNode {
    /// The state is a valid one, and the stores behind it are in order.
    pub open spec fn wf(self) -> bool {
        &&& self.stores_wf()
        &&& self@.valid()
    }

    /// No contact and no message key is held twice.
    pub closed spec fn stores_wf(self) -> bool {
        &&& self.contacts.wf()
        &&& self.session matches Some(session) ==> session.sessions.stores_wf()
    }

    /// A peer with the identity given.
    pub fn with_identity(identity: Identity, port: u16, advertise_host: Option<&str>) -> (r: PeerNode)
        ensures
            r.wf(),
            r@ == PeerState::fresh(identity@, port, str_view(advertise_host)),
    {
        proof {
            use_type_invariant(&identity);
        }
        let r = PeerNode {
            identity,
            port,
            advertise_host: net::entered_host(advertise_host),
            session: None,
            contacts: ContactBook::new(),
            messages: Vec::new(),
            outbox: Vec::new(),
        };
        assert(r@ =~= PeerState::fresh(r@.identity, port, str_view(advertise_host)));
        r
    }

    /// A peer that listens on `port`, with an identity drawn for it.
    pub fn new(port: u16, advertise_host: Option<&str>) -> (r: PeerNode)
        ensures
            r.wf(),
            r@ == PeerState::fresh(r@.identity, port, str_view(advertise_host)),
    {
        PeerNode::with_identity(Identity::generate(), port, advertise_host)
    }

    /// Changes the host that the peer advertises.
    pub fn set_advertise_host(&mut self, host: Option<&str>)
        requires
            old(self).wf(),
        ensures
            final(self).wf(),
            final(self)@ == (PeerState {
                advertise_host: net::entered(str_view(host)),
                ..old(self)@
            }),
    {
        self.advertise_host = net::entered_host(host);
    }

    /// The public key of the peer, as it is sent.
    pub fn public_key_b64(&self) -> (r: String)
        ensures
            r@ == self@.identity.text(),
            keys::parse_key(r@) == Ok::<Seq<u8>, CryptoError>(self@.identity.public),
    {
        self.identity.public_key_b64()
    }

    /// The host that the peer advertises.
    fn host(&self) -> (r: Option<&str>)
        ensures
            str_view(r) == self@.advertise_host,
    {
        match &self.advertise_host {
            Some(host) => Some(host.as_str()),
            None => None,
        }
    }

    /// The base URLs under which the peer may be reached, the best first, where `local` holds the
    /// addresses of the machine.
    fn candidate_urls(&self, local: &[Ipv4]) -> (r: Vec<String>)
        ensures
            text::texts(r@) == self@.candidates(local@),
            r@.len() > 0,
    {
        proof {
            net::law_candidates(self.port, self@.advertise_host, local@);
        }
        let r = net::candidate_base_urls(self.port, self.host(), local);
        assert(text::texts(r@).len() == r@.len());
        r
    }

    /// The URL to share with others.
    pub fn share_url(&self, local: &[Ipv4]) -> (r: String)
        ensures
            r@ == self@.share_url(local@),
    {
        let urls = self.candidate_urls(local);
        assert(text::texts(urls@)[0] == urls@[0]@);
        urls[0].clone()
    }

    /// The URL at which the other peer can dial back: empty where no host is advertised.
    pub fn dialable_listen_url(&self, local: &[Ipv4]) -> (r: String)
        ensures
            r@ == self@.dialable_listen_url(local@),
    {
        if self.advertise_host.is_some() {
            self.share_url(local)
        } else {
            String::new()
        }
    }

    /// What the peer shows of itself to its user.
    pub fn snapshot(&self, local: &[Ipv4]) -> (r: PeerSnapshot)
        requires
            self.wf(),
        ensures
            model::shown(self@, local@, r),
    {
        let share_url = self.share_url(local);
        let public_key_b64 = self.public_key_b64();
        let (peer_url, peer_public_key_b64, peer_dialable) = match &self.session {
            Some(session) => (
                Some(session.peer_url.clone()),
                Some(session.peer_public_key_b64.clone()),
                session.peer_dialable,
            ),
            None => (None, None, false),
        };
        let (safety, trust_state) = match &self.session {
            Some(session) => {
                let peer = session.peer_public_key_b64.as_str();
                (
                    Some(safety_number(public_key_b64.as_str(), peer)),
                    match self.contacts.trust_state(public_key_b64.as_str(), peer) {
                        TrustState::Verified => "verified".to_owned(),
                        TrustState::Unverified => "unverified".to_owned(),
                    },
                )
            },
            None => (None, "unverified".to_owned()),
        };
        PeerSnapshot {
            listen_addr: share_url.clone(),
            share_url,
            public_key_b64,
            advertise_host: self.advertise_host.clone(),
            candidate_urls: self.candidate_urls(local),
            peer_url,
            peer_public_key_b64,
            connected: self.session.is_some(),
            peer_dialable,
            safety_number: safety,
            trust_state,
            messages: types::copy_messages(&self.messages),
        }
    }

    /// What a peer that listens on `port` can tell its user about how it may be reached, where
    /// `local` holds the addresses of the machine and `public` its public address, if that was
    /// found.
    pub fn network_hints(
        port: u16,
        advertise_host: Option<&str>,
        local: &[Ipv4],
        public: Option<Ipv4>,
    ) -> (r: NetworkHints)
        ensures
            text::texts(r.local_urls@) == net::candidates(port, str_view(advertise_host), local@),
            types::text_view(r.stun_public_ip) == match public {
                Some(ip) => Some(net::dotted(ip)),
                None => None,
            },
            types::text_view(r.suggested_share_url) == net::suggested_url(
                port,
                str_view(advertise_host),
                public,
            ),
    {
        let local_urls = net::candidate_base_urls(port, advertise_host, local);
        let stun_public_ip = match public {
            Some(ip) => Some(net::ipv4_text(&ip)),
            None => None,
        };
        let suggested_share_url = match net::entered_host(advertise_host) {
            Some(host) => Some(net::advertised_url_of(host.as_str(), port)),
            None => match public {
                Some(ip) => Some(net::base_url_of(net::ipv4_text(&ip).as_str(), port)),
                None => None,
            },
        };
        NetworkHints { local_urls, stun_public_ip, suggested_share_url }
    }

    /// Whether the peer has a session with another.
    pub fn is_connected(&self) -> (r: bool)
        ensures
            r == (self@.session is Some),
    {
        self.session.is_some()
    }

    /// What to do when the user asks the peer to connect to the one at a URL.
    pub fn connect_to(&self, peer_url: &str) -> (r: Result<ConnectStep, PeerError>)
        ensures
            match r {
                Ok(step) => model::connecting(self@, peer_url@) == Ok::<Connect, Fault>(step@),
                Err(e) => model::connecting(self@, peer_url@) == Err::<Connect, Fault>(e@),
            },
    {
        let url = text::trim_end_of(peer_url, '/');
        if !is_http(url.as_str()) {
            return Err(PeerError::Message("peer URL must be http(s)".to_owned()));
        }
        match &self.session {
            Some(session) => {
                if session.peer_url == url {
                    return Ok(ConnectStep::Connected);
                }
                if !session.peer_url.as_str().is_empty() {
                    return Err(PeerError::Message("already connected to another peer".to_owned()));
                }
            },
            None => {},
        }
        Ok(ConnectStep::Dial(url))
    }

    /// The offer for the peer with the identity given, where `local` holds the addresses of the
    /// machine, with the ephemeral key and the nonce given.
    pub fn offer_to_with(
        &self,
        responder_ik_b64: &str,
        local: &[Ipv4],
        ephemeral: Identity,
        nonce: &[u8; NONCE_LEN],
    ) -> (r: Result<(HandshakeInitiator, HandshakeOffer), PeerError>)
        ensures
            offering_as(
                handshake::offered(
                    self@.identity,
                    responder_ik_b64@,
                    self@.dialable_listen_url(local@),
                    ephemeral@,
                    nonce@,
                ),
                r,
            ),
            r is Ok <==> keys::parse_key(responder_ik_b64@) is Ok && aead::sealable(
                handshake::transcript_len(
                    responder_ik_b64@,
                    self@.dialable_listen_url(local@),
                ),
            ),
    {
        let listen_url = self.dialable_listen_url(local);
        match HandshakeInitiator::start_with(
            &self.identity,
            responder_ik_b64,
            listen_url.as_str(),
            ephemeral,
            nonce,
        ) {
            Ok(started) => Ok(started),
            Err(e) => Err(PeerError::Crypto(e)),
        }
    }

    /// The offer for the peer with the identity given, where `local` holds the addresses of the
    /// machine.
    pub fn offer_to(&self, responder_ik_b64: &str, local: &[Ipv4]) -> (r: Result<
        (HandshakeInitiator, HandshakeOffer),
        PeerError,
    >)
        ensures
            exists|ephemeral: KeyPair, nonce: Seq<u8>|
                ephemeral.valid() && nonce.len() == 12 && offering_as(
                    #[trigger] handshake::offered(
                        self@.identity,
                        responder_ik_b64@,
                        self@.dialable_listen_url(local@),
                        ephemeral,
                        nonce,
                    ),
                    r,
                ),
            r is Ok <==> keys::parse_key(responder_ik_b64@) is Ok && aead::sealable(
                handshake::transcript_len(
                    responder_ik_b64@,
                    self@.dialable_listen_url(local@),
                ),
            ),
    {
        let ephemeral = Identity::generate();
        let nonce = primitives::random_nonce();
        assert(nonce@.len() == 12);
        self.offer_to_with(responder_ik_b64, local, ephemeral, &nonce)
    }

    /// Whether an offer whose answer never came is one that the peer would make now, to the peer with
    /// the identity given. Made again, it gets the answer that got lost, if it was given.
    pub fn may_offer_again(
        &self,
        initiator: &HandshakeInitiator,
        offer: &HandshakeOffer,
        responder_ik_b64: &str,
        local: &[Ipv4],
    ) -> (r: bool)
        ensures
            r == (initiator@.responder == responder_ik_b64@ && offer@.listen_url
                == self@.dialable_listen_url(local@)),
    {
        text::same_text(initiator.responder_ik_b64(), responder_ik_b64) && offer.listen_url
            == self.dialable_listen_url(local)
    }

    /// Finishes the connection to the peer at `peer_url` with its answer.
    pub fn finish_connect(
        &mut self,
        peer_url: String,
        initiator: HandshakeInitiator,
        accept: &HandshakeAccept,
    ) -> (r: Result<(), PeerError>)
        requires
            old(self).wf(),
        ensures
            final(self).wf(),
            ({
                let outcome = model::connected(old(self)@, peer_url@, initiator@, accept@);
                &&& final(self)@ == outcome.0
                &&& match r {
                    Ok(_) => outcome.1 == Ok::<(), Fault>(()),
                    Err(e) => outcome.1 == Err::<(), Fault>(e@),
                }
            }),
    {
        if !text::same_text(
            accept.identity_public_key_b64.as_str(),
            initiator.responder_ik_b64(),
        ) {
            return Err(
                PeerError::Message("handshake public key mismatch with /identity".to_owned()),
            );
        }
        self.join(peer_url, initiator.finish(accept))
    }

    /// Starts the session with the peer at `peer_url`, or goes on with new keys where there is one, if
    /// the handshake came to one.
    pub fn join(&mut self, peer_url: String, finished: Result<SecureSession, CryptoError>) -> (r:
        Result<(), PeerError>)
        requires
            old(self).wf(),
            finished matches Ok(secure) ==> secure.wf() && sessions::live(secure@.ratchet),
        ensures
            final(self).wf(),
            ({
                let outcome = model::joined(
                    old(self)@,
                    peer_url@,
                    match finished {
                        Ok(secure) => Ok(secure@),
                        Err(e) => Err(e),
                    },
                );
                &&& final(self)@ == outcome.0
                &&& match r {
                    Ok(_) => outcome.1 == Ok::<(), Fault>(()),
                    Err(e) => outcome.1 == Err::<(), Fault>(e@),
                }
            }),
    {
        match finished {
            Ok(secure) => {
                let peer = secure.peer_identity_b64().to_owned();
                let known = match &self.session {
                    Some(session) => session.peer_public_key_b64 == peer,
                    None => false,
                };
                if known {
                    match &mut self.session {
                        Some(session) => {
                            session.peer_url = peer_url;
                            session.peer_dialable = true;
                            session.sessions.add_agreed(secure);
                        },
                        None => {},
                    }
                } else {
                    self.session = Some(
                        Session {
                            peer_url,
                            peer_public_key_b64: peer,
                            peer_dialable: true,
                            sessions: Sessions::agreed(secure),
                        },
                    );
                }
                Ok(())
            },
            Err(CryptoError::HandshakeProof) => Err(
                PeerError::Message("responder handshake proof mismatch".to_owned()),
            ),
            Err(e) => Err(PeerError::Crypto(e)),
        }
    }

    /// Whether a text can be sent to the peer of the session.
    fn check_text(&self, body: &str) -> (r: Result<(), PeerError>)
        ensures
            match r {
                Ok(_) => model::unsendable(self@, body@) is None,
                Err(e) => model::unsendable(self@, body@) == Some(e@),
            },
    {
        let trimmed = text::trim(body);
        if trimmed.as_str().unicode_len() == 0 {
            return Err(PeerError::Message("message must not be empty".to_owned()));
        }
        if body.as_bytes().len() > MAX_BODY {
            return Err(PeerError::Message("message too long".to_owned()));
        }
        match &self.session {
            None => Err(PeerError::Message("not connected to a peer".to_owned())),
            Some(session) => {
                let dialed = session.peer_dialable && !session.peer_url.as_str().is_empty();
                if !dialed && self.outbox.len() >= MAX_OUTBOX {
                    Err(PeerError::Message("outbox full; peer is not pulling".to_owned()))
                } else {
                    Ok(())
                }
            },
        }
    }

    /// Whether the count of sent messages has room for this one, if it can be sent.
    pub fn can_send_text(&self, body: &str) -> (r: bool)
        requires
            self.wf(),
        ensures
            r == can_send(self@, body@),
    {
        match self.check_text(body) {
            Ok(_) => match &self.session {
                Some(session) => session.sessions.sending().can_encrypt(),
                None => true,
            },
            Err(_) => true,
        }
    }

    /// Makes a text ready to be sent, with the key and the nonce given.
    pub fn send_text_with(&mut self, body: &str, fresh: Identity, nonce: &[u8; NONCE_LEN]) -> (r:
        Result<Outgoing, PeerError>)
        requires
            old(self).wf(),
            can_send(old(self)@, body@),
        ensures
            final(self).wf(),
            sending_as(
                old(self)@,
                body@,
                fresh@,
                model::sending(old(self)@, body@, fresh@, nonce@),
                final(self)@,
                r,
            ),
            r is Ok <==> model::unsendable(old(self)@, body@) is None,
    {
        match self.check_text(body) {
            Ok(_) => {},
            Err(e) => return Err(e),
        }
        let from_public_key_b64 = self.identity.public_key_b64();
        match &mut self.session {
            None => Err(PeerError::Message("not connected to a peer".to_owned())),
            Some(session) => {
                let dial = if session.peer_dialable && !session.peer_url.as_str().is_empty() {
                    Some(session.peer_url.clone())
                } else {
                    None
                };
                let place: usize = session.sessions.place();
                let before = session.sessions.sending().send_mark();
                match session.sessions.encrypt_with(body.as_bytes(), fresh, nonce) {
                    Ok(message) => Ok(
                        Outgoing {
                            dial,
                            wire: WireMessage { from_public_key_b64, message },
                            body: body.to_owned(),
                            session: place,
                            before,
                            after: session.sessions.sending().send_mark(),
                        },
                    ),
                    Err(e) => Err(PeerError::Crypto(e)),
                }
            },
        }
    }

    /// Makes a text ready to be sent.
    pub fn send_text(&mut self, body: &str) -> (r: Result<Outgoing, PeerError>)
        requires
            old(self).wf(),
            can_send(old(self)@, body@),
        ensures
            final(self).wf(),
            exists|fresh: KeyPair, nonce: Seq<u8>|
                model::drawn_to_send(old(self)@, fresh) && nonce.len() == 12 && sending_as(
                    old(self)@,
                    body@,
                    fresh,
                    #[trigger] model::sending(old(self)@, body@, fresh, nonce),
                    final(self)@,
                    r,
                ),
            r is Ok <==> model::unsendable(old(self)@, body@) is None,
    {
        let own = self.public_key_b64();
        let fresh = match &self.session {
            Some(session) => session.sessions.sending().draw_key(own.as_str()),
            None => Identity::generate(),
        };
        let nonce = primitives::random_nonce();
        assert(nonce@.len() == 12);
        self.send_text_with(body, fresh, &nonce)
    }

    /// Enters a message that was sent into the chat, and into the mailbox where it was not
    /// delivered, with the identifier and the time given. Where the mailbox is full the message is
    /// refused, and the session goes back to before it was sealed.
    pub fn finish_send_as(
        &mut self,
        out: Outgoing,
        delivered: bool,
        id: String,
        at: Timestamp,
    ) -> (r: Result<ChatMessage, PeerError>)
        requires
            old(self).wf(),
        ensures
            final(self).wf(),
            sent_as(model::sent(old(self)@, out@, delivered, id@, at), final(self)@, r),
    {
        if !delivered {
            if self.outbox.len() >= MAX_OUTBOX {
                match &mut self.session {
                    Some(session) => session.sessions.unsend(out.session, out.before, &out.after),
                    None => {},
                }
                return Err(PeerError::Message("outbox full; peer is not pulling".to_owned()));
            }
            self.outbox.push(out.wire);
            assert(types::wires(self.outbox@) =~= types::wires(old(self).outbox@).push(out@.wire));
        }
        let message = ChatMessage {
            id: id.clone(),
            direction: "out".to_owned(),
            body: out.body.clone(),
            at,
        };
        self.push_message(message);
        Ok(ChatMessage { id, direction: "out".to_owned(), body: out.body, at })
    }

    /// Adds a message to the chat.
    fn push_message(&mut self, message: ChatMessage)
        requires
            old(self).wf(),
        ensures
            final(self).wf(),
            final(self)@ == old(self)@.with_message(message@),
    {
        self.messages.push(message);
        assert(types::chats(self.messages@) =~= types::chats(old(self).messages@).push(message@));
    }

    /// Enters a message that was sent into the chat, and into the mailbox where it was not
    /// delivered. Where the mailbox is full the message is refused, and the session goes back to
    /// before it was sealed.
    pub fn finish_send(&mut self, out: Outgoing, delivered: bool) -> (r: Result<
        ChatMessage,
        PeerError,
    >)
        requires
            old(self).wf(),
        ensures
            final(self).wf(),
            exists|id: Seq<char>, at: Timestamp|
                stamp::stamped(id, at) && model::new_id(old(self)@, id) && sent_as(
                    #[trigger] model::sent(old(self)@, out@, delivered, id, at),
                    final(self)@,
                    r,
                ),
    {
        let id = self.draw_id();
        let at = stamp::utc_now();
        self.finish_send_as(out, delivered, id, at)
    }

    /// What to ask the other peer for what waits in its mailbox, and where; nothing where there is
    /// no session with a peer that can be reached.
    pub fn poll_request(&self) -> (r: Option<(String, PullRequest)>)
        requires
            self.wf(),
        ensures
            match r {
                Some((url, request)) => model::polling(self@) == Some(url@) && request@.from
                    == self@.identity.text() && aead::seals(
                    self@.ring().sending().auth_key,
                    ratchet::auth_label(),
                    model::pull_phrase(),
                    request@.proof,
                ),
                None => model::polling(self@) is None,
            },
    {
        match &self.session {
            Some(session) => {
                if session.peer_url.as_str().is_empty() {
                    return None;
                }
                proof {
                    reveal_strlit("pull-v2");
                    keys::lemma_ascii_len("pull-v2"@);
                }
                match session.sessions.sending().seal_auth("pull-v2".as_bytes()) {
                    Ok(payload) => Some(
                        (
                            session.peer_url.clone(),
                            PullRequest {
                                from_public_key_b64: self.identity.public_key_b64(),
                                proof: payload,
                            },
                        ),
                    ),
                    Err(_) => None,
                }
            },
            None => None,
        }
    }

    /// Whether the counts of received messages have room for this one, if it comes from the peer of
    /// the session.
    pub fn can_accept_message(&self, wire: &WireMessage) -> (r: bool)
        requires
            self.wf(),
        ensures
            r == can_receive(self@, wire@),
    {
        match self.check_peer(wire.from_public_key_b64.as_str()) {
            Ok(_) => match &self.session {
                Some(session) => session.sessions.can_decrypt(&wire.message),
                None => true,
            },
            Err(_) => true,
        }
    }

    /// Draws an identifier that no message of the chat has.
    fn draw_id(&self) -> (id: String)
        ensures
            id@.len() == 36,
            is_ascii_chars(id@),
            model::new_id(self@, id@),
    {
        let id = stamp::id_unlike(&self.messages);
        assert forall|i: int| 0 <= i < self@.messages.len() implies (
            #[trigger] self@.messages[i]).id != id@ by {
            assert(self@.messages[i] == self.messages@[i]@);
        }
        id
    }

    /// Draws a key for the chain that follows where a message starts one.
    fn draw_key_for(&self, wire: &WireMessage) -> (r: Identity)
        requires
            self.wf(),
            can_receive(self@, wire@),
        ensures
            model::drawn_for(self@, wire@, r@),
    {
        let own = self.public_key_b64();
        match self.check_peer(wire.from_public_key_b64.as_str()) {
            Ok(_) => match &self.session {
                Some(session) => session.sessions.draw_key_for(&wire.message, own.as_str()),
                None => Identity::generate(),
            },
            Err(_) => Identity::generate(),
        }
    }

    /// Reads a message in the sessions, with the key given, and leaves them as they are.
    fn open_with(&self, message: &RatchetMessage, fresh: &Identity) -> (r: (
        Option<Opened>,
        Result<Vec<u8>, CryptoError>,
    ))
        requires
            self.wf(),
            self@.session is Some,
            self@.ring().can_receive(message@),
        ensures
            bytes_view(r.1) == self@.ring().reading(fresh@, message@).1,
            r.1 is Ok ==> r.0 is Some,
            r.0 matches Some(opened) ==> self.reads_to(
                opened,
                self@.ring().reading(fresh@, message@).0,
            ),
    {
        match &self.session {
            Some(session) => match session.sessions.open_with(message, fresh) {
                Ok((opened, plaintext)) => (Some(opened), Ok(plaintext)),
                Err(e) => (None, Err(e)),
            },
            None => (None, Err(CryptoError::Decrypt)),
        }
    }

    /// What was read was read in the sessions of the peer, which come to `ring` by it.
    closed spec fn reads_to(self, opened: Opened, ring: Ring) -> bool {
        self.session matches Some(session) && opened.fits(session.sessions) && opened.settled(
            session.sessions,
        ) == ring
    }

    /// Makes what was read final, and enters it into the chat.
    fn enter(&mut self, opened: Option<Opened>, body: String, id: String, at: Timestamp)
        requires
            old(self).wf(),
            opened is Some,
            exists|ring: Ring| #[trigger] old(self).reads_to(opened->0, ring),
        ensures
            final(self).wf(),
            forall|ring: Ring| #[trigger]
                old(self).reads_to(opened->0, ring) ==> final(self)@ == old(self)@.with_ring(
                    ring,
                ).with_message(Chat { id: id@, direction: "in"@, body: body@, at }),
    {
        match opened {
            Some(opened) => match &mut self.session {
                Some(session) => session.sessions.settle(opened),
                None => {},
            },
            None => {},
        }
        self.push_message(ChatMessage { id, direction: "in".to_owned(), body, at });
    }

    /// Takes in one message that came out of the other peer's mailbox, with the key, the
    /// identifier and the time given.
    pub fn receive_pulled_one_with(
        &mut self,
        wire: &WireMessage,
        fresh: Identity,
        id: String,
        at: Timestamp,
    )
        requires
            old(self).wf(),
            can_receive(old(self)@, wire@),
        ensures
            final(self).wf(),
            final(self)@ == model::pulled_one(old(self)@, wire@, fresh@, id@, at),
    {
        if self.check_peer(wire.from_public_key_b64.as_str()).is_err() {
            return ;
        }
        let (opened, plaintext) = self.open_with(&wire.message, &fresh);
        match pulled_text(plaintext) {
            Some(body) => self.enter(opened, body, id, at),
            None => {},
        }
    }

    /// Takes in the messages that came out of the other peer's mailbox, one after the other, and
    /// says how many: all of them, or those before the first for which the count of received
    /// messages has no room.
    pub fn receive_pulled(&mut self, list: &Vec<WireMessage>) -> (taken: usize)
        requires
            old(self).wf(),
        ensures
            final(self).wf(),
            taken <= list@.len(),
            taken < list@.len() ==> !can_receive(final(self)@, list@[taken as int]@),
            exists|draws: Seq<Draw>|
                draws.len() == taken && (forall|i: int|
                    0 <= i < draws.len() ==> drawn(#[trigger] draws[i])) && model::all_drawn(
                    old(self)@,
                    types::wires(list@),
                    draws,
                ) && final(self)@ == #[trigger] model::pulled(
                    old(self)@,
                    types::wires(list@).take(taken as int),
                    draws,
                ),
    {
        let ghost mut draws: Seq<Draw> = Seq::empty();
        let mut i: usize = 0;
        assert(types::wires(list@).take(0) =~= Seq::empty());
        while i < list.len()
            invariant
                i <= list@.len(),
                self.wf(),
                draws.len() == i,
                forall|j: int| 0 <= j < draws.len() ==> drawn(#[trigger] draws[j]),
                model::all_drawn(old(self)@, types::wires(list@), draws),
                self@ == model::pulled(
                    old(self)@,
                    types::wires(list@).take(i as int),
                    draws,
                ),
            decreases list@.len() - i,
        {
            if !self.can_accept_message(&list[i]) {
                return i;
            }
            let fresh = self.draw_key_for(&list[i]);
            let id = self.draw_id();
            let at = stamp::utc_now();
            proof {
                let draw = Draw { fresh: fresh@, id: id@, at };
                let all = types::wires(list@);
                assert(all.take(i + 1).drop_last() =~= all.take(i as int));
                assert(draws.push(draw).drop_last() =~= draws);
                let more = draws.push(draw);
                assert(more.take(i as int) =~= draws);
                assert forall|j: int| 0 <= j < more.len() implies model::drawn_for(
                    model::pulled(old(self)@, all.take(j), more.take(j)),
                    all[j],
                    (#[trigger] more[j]).fresh,
                ) && model::new_id(
                    model::pulled(old(self)@, all.take(j), more.take(j)),
                    more[j].id,
                ) by {
                    if j < i {
                        assert(more[j] == draws[j]);
                        assert(more.take(j) =~= draws.take(j));
                    }
                }
                draws = more;
            }
            self.receive_pulled_one_with(&list[i], fresh, id, at);
            i = i + 1;
        }
        i
    }

    /// Answers an offer, with the key and the nonce given.
    pub fn accept_handshake_with(
        &mut self,
        offer: &HandshakeOffer,
        ephemeral: Identity,
        nonce: &[u8; NONCE_LEN],
    ) -> (r: Result<HandshakeAccept, Refusal>)
        requires
            old(self).wf(),
        ensures
            final(self).wf(),
            greeted_as(
                old(self)@,
                offer@,
                ephemeral@,
                model::greeted(old(self)@, offer@, ephemeral@, nonce@),
                final(self)@,
                r,
            ),
    {
        if text::trim(offer.identity_public_key_b64.as_str()).as_str().unicode_len() == 0 {
            return Err(types::refuse(Status::BadRequest, "missing public key"));
        }
        let peer_url = offered_url(offer);
        if peer_url.as_str().unicode_len() > 0 && !is_http(peer_url.as_str()) {
            return Err(types::refuse(Status::BadRequest, "listen_url must be http(s) or empty"));
        }
        match &self.session {
            Some(session) => {
                if session.peer_public_key_b64 != offer.identity_public_key_b64 {
                    return Err(
                        types::refuse(Status::Conflict, "already connected to another peer"),
                    );
                }
            },
            None => {},
        }
        let accepted = HandshakeResponder::accept_with(&self.identity, offer, ephemeral, nonce);
        self.welcome(offer, accepted)
    }

    /// Starts the session with the peer that made the offer, if the handshake came to one. Where
    /// there is a session with it already, that stays as it is, and the new keys are held beside it.
    pub fn welcome(
        &mut self,
        offer: &HandshakeOffer,
        accepted: Result<(SecureSession, HandshakeAccept), CryptoError>,
    ) -> (r: Result<HandshakeAccept, Refusal>)
        requires
            old(self).wf(),
            accepted matches Ok((secure, _)) ==> secure.wf() && sessions::live(secure@.ratchet),
        ensures
            final(self).wf(),
            ({
                let outcome = model::welcomed(
                    old(self)@,
                    offer@,
                    match accepted {
                        Ok((secure, accept)) => Ok((secure@, accept@)),
                        Err(e) => Err(e),
                    },
                );
                &&& final(self)@ == outcome.0
                &&& match r {
                    Ok(accept) => outcome.1 == Ok::<Accept, Refused>(accept@),
                    Err(refusal) => outcome.1 == Err::<Accept, Refused>(refusal@),
                }
            }),
    {
        let (secure, accept) = match accepted {
            Ok(accepted) => accepted,
            Err(e) => {
                return Err(
                    match e {
                        CryptoError::InvalidCiphertext | CryptoError::Decrypt => types::refuse(
                            Status::Unauthorized,
                            "invalid handshake proof",
                        ),
                        CryptoError::HandshakeProof => types::refuse(
                            Status::Unauthorized,
                            "handshake proof mismatch",
                        ),
                        e => types::refuse(Status::BadRequest, e.message().as_str()),
                    },
                );
            },
        };
        match &mut self.session {
            Some(session) => {
                match session.sessions.answer_to(offer) {
                    Some(before) => return Ok(before),
                    None => session.sessions.add_answered(secure, offer, &accept),
                }
            },
            None => {
                let peer_url = offered_url(offer);
                let peer_dialable = peer_url.as_str().unicode_len() > 0;
                self.session = Some(
                    Session {
                        peer_url,
                        peer_public_key_b64: offer.identity_public_key_b64.clone(),
                        peer_dialable,
                        sessions: Sessions::answered(secure, offer, &accept),
                    },
                );
            },
        }
        Ok(accept)
    }

    /// Answers an offer: the peer that made it becomes the peer of the session, if there was none.
    pub fn accept_handshake(&mut self, offer: &HandshakeOffer) -> (r: Result<
        HandshakeAccept,
        Refusal,
    >)
        requires
            old(self).wf(),
        ensures
            final(self).wf(),
            exists|ephemeral: KeyPair, nonce: Seq<u8>|
                ephemeral.valid() && nonce.len() == 12 && greeted_as(
                    old(self)@,
                    offer@,
                    ephemeral,
                    #[trigger] model::greeted(old(self)@, offer@, ephemeral, nonce),
                    final(self)@,
                    r,
                ),
            r is Ok <==> model::unwelcome(old(self)@, offer@) is None && (handshake::checked(
                old(self)@.identity,
                offer@,
            ) matches Ok(c) && aead::sealable(c.transcript.len())),
    {
        let ephemeral = Identity::generate();
        let nonce = primitives::random_nonce();
        assert(nonce@.len() == 12);
        proof {
            reveal_strlit("hs-accept");
            keys::lemma_ascii_len("hs-accept"@);
        }
        self.accept_handshake_with(offer, ephemeral, &nonce)
    }

    /// Whether a request comes from the peer of the session.
    fn check_peer(&self, from_public_key_b64: &str) -> (r: Result<(), Refusal>)
        ensures
            match r {
                Ok(_) => model::stranger(self@, from_public_key_b64@) is None,
                Err(refusal) => model::stranger(self@, from_public_key_b64@) == Some(refusal@),
            },
    {
        match &self.session {
            None => Err(types::refuse(Status::Conflict, "no active session")),
            Some(session) => {
                if text::same_text(session.peer_public_key_b64.as_str(), from_public_key_b64) {
                    Ok(())
                } else {
                    Err(types::refuse(Status::Forbidden, "unknown peer public key"))
                }
            },
        }
    }

    /// Takes in a message that was delivered, with the key, the identifier and the time given.
    pub fn accept_message_with(
        &mut self,
        wire: &WireMessage,
        fresh: Identity,
        id: String,
        at: Timestamp,
    ) -> (r: Result<(), Refusal>)
        requires
            old(self).wf(),
            can_receive(old(self)@, wire@),
        ensures
            final(self).wf(),
            delivered_as(
                model::delivered(old(self)@, wire@, fresh@, id@, at),
                final(self)@,
                r,
            ),
    {
        match self.check_peer(wire.from_public_key_b64.as_str()) {
            Ok(_) => {},
            Err(refusal) => return Err(refusal),
        }
        let (opened, plaintext) = self.open_with(&wire.message, &fresh);
        match delivered_text(plaintext) {
            Ok(body) => {
                self.enter(opened, body, id, at);
                Ok(())
            },
            Err(refusal) => Err(refusal),
        }
    }

    /// Takes in a message that was delivered.
    pub fn accept_message(&mut self, wire: &WireMessage) -> (r: Result<(), Refusal>)
        requires
            old(self).wf(),
            can_receive(old(self)@, wire@),
        ensures
            final(self).wf(),
            exists|fresh: KeyPair, id: Seq<char>, at: Timestamp|
                model::drawn_for(old(self)@, wire@, fresh) && stamp::stamped(id, at)
                    && model::new_id(old(self)@, id) && delivered_as(
                    #[trigger] model::delivered(old(self)@, wire@, fresh, id, at),
                    final(self)@,
                    r,
                ),
    {
        let fresh = self.draw_key_for(wire);
        let id = self.draw_id();
        let at = stamp::utc_now();
        self.accept_message_with(wire, fresh, id, at)
    }

    /// Gives out what waits in the mailbox.
    pub fn accept_pull(&mut self, request: &PullRequest) -> (r: Result<Vec<WireMessage>, Refusal>)
        requires
            old(self).wf(),
        ensures
            final(self).wf(),
            ({
                let outcome = model::drained(old(self)@, request@);
                &&& final(self)@ == outcome.0
                &&& match r {
                    Ok(list) => outcome.1 == Ok::<Seq<Wire>, Refused>(types::wires(list@)),
                    Err(refusal) => outcome.1 == Err::<Seq<Wire>, Refused>(refusal@),
                }
            }),
    {
        match self.check_peer(request.from_public_key_b64.as_str()) {
            Ok(_) => {},
            Err(refusal) => return Err(refusal),
        }
        match &mut self.session {
            Some(session) => {
                let (place, proved) = session.sessions.open_auth(&request.proof);
                match check_pull(proved) {
                    Ok(_) => session.sessions.know(place),
                    Err(refusal) => return Err(refusal),
                }
            },
            None => {},
        }
        let mut list: Vec<WireMessage> = Vec::new();
        std::mem::swap(&mut list, &mut self.outbox);
        assert(types::wires(self.outbox@) =~= Seq::empty());
        Ok(list)
    }

    /// Enters the peer of the session as verified, and shows the peer as it is then.
    pub fn verify_contact(&mut self, local: &[Ipv4]) -> (r: Result<PeerSnapshot, PeerError>)
        requires
            old(self).wf(),
        ensures
            final(self).wf(),
            ({
                let outcome = model::verifying(old(self)@);
                &&& final(self)@ == outcome.0
                &&& match r {
                    Ok(snapshot) => outcome.1 == Ok::<(), Fault>(()) && model::shown(
                        final(self)@,
                        local@,
                        snapshot,
                    ),
                    Err(e) => outcome.1 == Err::<(), Fault>(e@),
                }
            }),
    {
        let own = self.public_key_b64();
        match &self.session {
            Some(session) => {
                self.contacts.verify(own.as_str(), session.peer_public_key_b64.as_str());
            },
            None => return Err(PeerError::Message("not connected to a peer".to_owned())),
        }
        Ok(self.snapshot(local))
    }
}

/// Whether a listener may be started on a port: only one at a time, and not on a port below 1024.
pub fn check_listener(started: bool, port: u16) -> (r: Result<(), PeerError>)
    ensures
        match r {
            Ok(_) => model::unlistenable(started, port) is None && !started && port >= 1024,
            Err(e) => model::unlistenable(started, port) == Some(e@) && e@ == if started {
                Fault::Message("listener already started"@)
            } else {
                Fault::Message("port must be between 1024 and 65535"@)
            } && (started || port < 1024),
        },
{
    if started {
        return Err(PeerError::Message("listener already started".to_owned()));
    }
    if port < 1024 {
        return Err(PeerError::Message("port must be between 1024 and 65535".to_owned()));
    }
    Ok(())
}

} // verus!
