//! What holds between two peers: how a handshake links them, and how texts get from one to the
//! other.
//!
//! A message says nothing of the session that it was sealed in, so it is tried in each of them. That
//! none but its own reads it is a property of the cipher, and stands here as a condition; with one
//! session there is nothing to ask.
use crate::crypto::aead;
use crate::crypto::aead::SealedPayload;
use crate::crypto::conversation;
use crate::crypto::error::CryptoError;
use crate::crypto::handshake;
use crate::crypto::handshake::{Accept, InitiatorState, Offer};
use crate::crypto::keys;
use crate::crypto::keys::KeyPair;
use crate::crypto::ratchet;
use crate::crypto::ratchet::{Message, RatchetState};
use crate::crypto::trust;
use crate::net::Ipv4;
use crate::peer::laws;
use crate::peer::model;
use crate::peer::model::{Draw, PeerState, Sendable};
use crate::peer::sessions;
use crate::peer::stamp::Timestamp;
use crate::peer::types::{Chat, Fault, Pull, Refused, Wire};
use crate::text;
use vstd::prelude::*;
use vstd::utf8::*;

verus! {

/// Two peers have their session with each other.
pub open spec fn acquainted(a: PeerState, b: PeerState) -> bool {
    &&& a.session is Some
    &&& b.session is Some
    &&& a.session->0.peer == b.identity.text()
    &&& b.session->0.peer == a.identity.text()
}

/// The ratchet of one of the sessions of a peer.
pub open spec fn ratchet_of(a: PeerState, i: nat) -> RatchetState {
    a.ring().held[i as int].secure.ratchet
}

/// Session `i` of the one peer and session `j` of the other are the two sides of one: they share
/// their key, and their ratchets are in step.
pub open spec fn linked(a: PeerState, i: nat, b: PeerState, j: nat) -> bool {
    &&& acquainted(a, b)
    &&& i < a.ring().held.len()
    &&& j < b.ring().held.len()
    &&& a.ring().held[i as int].secure.auth_key == b.ring().held[j as int].secure.auth_key
    &&& conversation::in_step(ratchet_of(a, i), ratchet_of(b, j))
}

/// Two linked peers that have read all that the other has sent in the session.
pub open spec fn up_to_date(a: PeerState, i: nat, b: PeerState, j: nat) -> bool {
    &&& linked(a, i, b, j)
    &&& conversation::caught_up(ratchet_of(a, i), ratchet_of(b, j))
    &&& conversation::caught_up(ratchet_of(b, j), ratchet_of(a, i))
}

/// No session before number `j` reads a message.
pub open spec fn unread_before(b: PeerState, j: nat, msg: Message) -> bool {
    forall|k: int|
        0 <= k < j ==> ratchet::plaintext_of(
            (#[trigger] b.ring().held[k]).secure.ratchet,
            msg,
        ) is Err
}

/// No session before number `j` opens a proof.
pub open spec fn unproved_before(b: PeerState, j: nat, payload: SealedPayload) -> bool {
    forall|k: int|
        0 <= k < j ==> aead::opened(
            (#[trigger] b.ring().held[k]).secure.auth_key,
            payload,
            ratchet::auth_label(),
        ) is Err
}

/// Two peers differ in nothing but one of their sessions, and in which one is sent under.
pub open spec fn same_but(s: PeerState, t: PeerState, j: nat) -> bool {
    &&& t.session is Some
    &&& t.session->0.peer == s.session->0.peer
    &&& t.identity == s.identity
    &&& t.outbox == s.outbox
    &&& t.ring().held.len() == s.ring().held.len()
    &&& forall|k: int|
        0 <= k < s.ring().held.len() && k != j ==> #[trigger] t.ring().held[k]
            == s.ring().held[k]
    &&& t.ring().held[j as int].secure.auth_key == s.ring().held[j as int].secure.auth_key
}

/// A peer has kept all that it had, and may have come to further sessions.
pub open spec fn gained(s: PeerState, t: PeerState) -> bool {
    &&& s.session is Some
    &&& t.session is Some
    &&& t.session->0.peer == s.session->0.peer
    &&& t.identity == s.identity
    &&& t.contacts == s.contacts
    &&& t.messages == s.messages
    &&& t.outbox == s.outbox
    &&& s.ring().held.len() <= t.ring().held.len()
    &&& forall|k: int|
        0 <= k < s.ring().held.len() ==> #[trigger] t.ring().held[k] == s.ring().held[k]
}

/// A peer that asks for its messages gets them: what it seals proves that it is the peer of the
/// session, and then the session is sent under.
pub proof fn law_pull_request_is_answered(a: PeerState, b: PeerState, j: nat, request: Pull)
    requires
        linked(a, a.ring().current, b, j),
        request.from == a.identity.text(),
        aead::seals(
            a.ring().sending().auth_key,
            ratchet::auth_label(),
            model::pull_phrase(),
            request.proof,
        ),
        unproved_before(b, j, request.proof),
    ensures
        model::drained(b, request) == (
            PeerState { outbox: Seq::empty(), ..b.with_ring(b.ring().known(j)) },
            Ok::<Seq<Wire>, Refused>(b.outbox),
        ),
{
    sessions::lemma_proves_in(b.ring(), j, request.proof);
}

/// Both peers of a session see the same safety number.
pub proof fn law_safety_numbers_match(a: PeerState, b: PeerState)
    requires
        acquainted(a, b),
    ensures
        model::safety(a) == model::safety(b),
{
    trust::law_safety_number_is_symmetric(a.identity.text(), b.identity.text());
}

/// An offer that a peer makes to another is answered, by one that has no session or has its session
/// with the peer that makes the offer.
pub proof fn law_own_offer_is_answered(
    a: PeerState,
    b: PeerState,
    ips: Seq<Ipv4>,
    state: InitiatorState,
    offer: Offer,
    ephemeral: KeyPair,
    nonce: Seq<u8>,
)
    requires
        handshake::offers(state, offer),
        state.identity == a.identity,
        state.responder == b.identity.text(),
        state.listen_url == a.dialable_listen_url(ips),
        aead::sealable(state.transcript().len()),
        b.identity.valid(),
        keys::parse_key(b.identity.text()) == Ok::<Seq<u8>, CryptoError>(b.identity.public),
        b.session matches Some(link) ==> link.peer == a.identity.text(),
    ensures
        model::greeted(b, offer, ephemeral, nonce).1 is Ok,
        b.session is None ==> model::greeted(b, offer, ephemeral, nonce).0.session->0.peer_url
            == a.dialable_listen_url(ips),
{
    laws::law_offered_url_is_kept(a, ips, offer);
    handshake::law_offer_is_accepted(state, offer, b.identity);
    reveal_strlit("hs-accept");
    keys::lemma_ascii_len("hs-accept"@);
}

/// A handshake links two peers: the first answer to an offer that was made for it finishes the
/// connection, and the last session of the one fits that of the other, with nothing sent in it yet.
/// The peer that made the offer sends under it from now on.
pub proof fn law_handshake_links_peers(
    a: PeerState,
    b: PeerState,
    url: Seq<char>,
    state: InitiatorState,
    offer: Offer,
    ephemeral: KeyPair,
    nonce: Seq<u8>,
    after: PeerState,
    accept: Accept,
)
    requires
        handshake::offers(state, offer),
        state.identity == a.identity,
        state.responder == b.identity.text(),
        model::answer_to(b, offer) is None,
        model::greeted(b, offer, ephemeral, nonce) == (after, Ok::<Accept, Refused>(accept)),
        handshake::answers(b.identity, offer, ephemeral, accept),
    ensures
        ({
            let (joined, r) = model::connected(a, url, state, accept);
            &&& r == Ok::<(), Fault>(())
            &&& joined.session->0.peer_url == url
            &&& joined.ring().current == joined.ring().held.len() - 1
            &&& after.ring().held.len() > 0
            &&& up_to_date(
                joined,
                joined.ring().current,
                after,
                (after.ring().held.len() - 1) as nat,
            )
        }),
        b.session is None ==> after.session->0.peer_url == model::offered_url(offer),
{
    let (secure, _) = handshake::accepted(b.identity, offer, ephemeral, nonce)->Ok_0;
    handshake::law_handshake_agrees(
        state,
        offer,
        b.identity,
        ephemeral,
        nonce,
        secure,
        accept,
    );
}

/// An answered offer takes nothing away from a peer that has a session: it keeps all that it had,
/// and goes on to send under the session that it sent under, to where it did.
pub proof fn law_answered_offer_only_adds(
    s: PeerState,
    offer: Offer,
    ephemeral: KeyPair,
    nonce: Seq<u8>,
)
    requires
        s.valid(),
        s.session is Some,
        model::greeted(s, offer, ephemeral, nonce).1 is Ok,
    ensures
        ({
            let t = model::greeted(s, offer, ephemeral, nonce).0;
            &&& gained(s, t)
            &&& t.session->0.peer_url == s.session->0.peer_url
            &&& t.session->0.dialable == s.session->0.dialable
            &&& t.ring().current == s.ring().current
            &&& t.ring().sending() == s.ring().sending()
            &&& model::polling(t) == model::polling(s)
        }),
{
}

/// What a peer with a session sends after it answered an offer is what it would have sent before.
pub proof fn law_answered_offer_changes_no_text(
    s: PeerState,
    offer: Offer,
    ephemeral: KeyPair,
    nonce: Seq<u8>,
    body: Seq<char>,
    fresh: KeyPair,
    text_nonce: Seq<u8>,
)
    requires
        s.valid(),
        s.session is Some,
        model::greeted(s, offer, ephemeral, nonce).1 is Ok,
    ensures
        model::sending(
            model::greeted(s, offer, ephemeral, nonce).0,
            body,
            fresh,
            text_nonce,
        ).1 == model::sending(s, body, fresh, text_nonce).1,
{
    law_answered_offer_only_adds(s, offer, ephemeral, nonce);
}

/// Neither does a connection that a peer finishes with the peer that it has its session with; it
/// sends under the new keys from now on.
pub proof fn law_finished_connection_only_adds(
    s: PeerState,
    url: Seq<char>,
    initiator: InitiatorState,
    accept: Accept,
)
    requires
        s.session is Some,
        s.session->0.peer == initiator.responder,
        model::connected(s, url, initiator, accept).1 is Ok,
    ensures
        ({
            let t = model::connected(s, url, initiator, accept).0;
            &&& gained(s, t)
            &&& t.ring().current == s.ring().held.len()
        }),
{
}

/// A peer that kept all that it had reads what it would have read: a message that it would have
/// taken is taken, with the same text, whether it was delivered or pulled.
pub proof fn law_what_was_kept_is_read(
    s: PeerState,
    t: PeerState,
    wire: Wire,
    fresh: KeyPair,
    id: Seq<char>,
    at: Timestamp,
)
    requires
        s.valid(),
        gained(s, t),
    ensures
        model::delivered(s, wire, fresh, id, at).1 is Ok ==> {
            let (read, r) = model::delivered(t, wire, fresh, id, at);
            &&& r is Ok
            &&& read.messages == model::delivered(s, wire, fresh, id, at).0.messages
            &&& gained(model::delivered(s, wire, fresh, id, at).0, read)
        },
        model::pulled_one(s, wire, fresh, id, at).messages.len() > s.messages.len() ==> {
            let read = model::pulled_one(t, wire, fresh, id, at);
            &&& read.messages == model::pulled_one(s, wire, fresh, id, at).messages
            &&& gained(model::pulled_one(s, wire, fresh, id, at), read)
        },
{
    let held = s.ring().held;
    let i = sessions::first_reading(held, wire.message);
    sessions::lemma_first_reading(held, wire.message);
    assert(held[s.ring().current as int].secure == s.ring().sending());
    if i < held.len() {
        assert forall|k: int| 0 <= k < i implies ratchet::plaintext_of(
            (#[trigger] t.ring().held[k]).secure.ratchet,
            wire.message,
        ) is Err by {
            assert(t.ring().held[k] == held[k]);
        }
        assert(t.ring().held[i as int] == held[i as int]);
        sessions::lemma_reads_in(t.ring(), i, fresh, wire.message);
    }
}

/// A peer that kept all that it had answers a request for its mailbox that it would have answered,
/// with the same messages.
pub proof fn law_kept_mailbox_is_drained(s: PeerState, t: PeerState, request: Pull)
    requires
        s.valid(),
        gained(s, t),
        model::drained(s, request).1 is Ok,
    ensures
        model::drained(t, request).1 == model::drained(s, request).1,
{
    let held = s.ring().held;
    assert(held[s.ring().current as int].secure == s.ring().sending());
    let p = sessions::first_proving(held, request.proof);
    sessions::lemma_first_proving(held, request.proof);
    if p < held.len() {
        assert forall|k: int| 0 <= k < p implies aead::opened(
            (#[trigger] t.ring().held[k]).secure.auth_key,
            request.proof,
            ratchet::auth_label(),
        ) is Err by {
            assert(t.ring().held[k] == held[k]);
        }
        assert(t.ring().held[p as int] == held[p as int]);
        sessions::lemma_proves_in(t.ring(), p, request.proof);
    }
}

/// With a session before, neither side of a handshake loses a message: one that a peer would have
/// taken before it answers an offer, or finishes a connection with the peer of its session, it takes
/// after it, with the same text.
pub proof fn law_handshake_keeps_messages_readable(
    s: PeerState,
    offer: Offer,
    ephemeral: KeyPair,
    nonce: Seq<u8>,
    url: Seq<char>,
    initiator: InitiatorState,
    accept: Accept,
    wire: Wire,
    fresh: KeyPair,
    id: Seq<char>,
    at: Timestamp,
)
    requires
        s.valid(),
        s.session is Some,
    ensures
        ({
            let (t, answered) = model::greeted(s, offer, ephemeral, nonce);
            answered is Ok ==> {
                &&& model::delivered(s, wire, fresh, id, at).1 is Ok ==> {
                    &&& model::delivered(t, wire, fresh, id, at).1 is Ok
                    &&& model::delivered(t, wire, fresh, id, at).0.messages == model::delivered(
                        s,
                        wire,
                        fresh,
                        id,
                        at,
                    ).0.messages
                }
                &&& model::pulled_one(s, wire, fresh, id, at).messages.len() > s.messages.len()
                    ==> model::pulled_one(t, wire, fresh, id, at).messages == model::pulled_one(
                    s,
                    wire,
                    fresh,
                    id,
                    at,
                ).messages
            }
        }),
        ({
            let (t, finished) = model::connected(s, url, initiator, accept);
            finished is Ok && s.session->0.peer == initiator.responder ==> {
                &&& model::delivered(s, wire, fresh, id, at).1 is Ok ==> {
                    &&& model::delivered(t, wire, fresh, id, at).1 is Ok
                    &&& model::delivered(t, wire, fresh, id, at).0.messages == model::delivered(
                        s,
                        wire,
                        fresh,
                        id,
                        at,
                    ).0.messages
                }
                &&& model::pulled_one(s, wire, fresh, id, at).messages.len() > s.messages.len()
                    ==> model::pulled_one(t, wire, fresh, id, at).messages == model::pulled_one(
                    s,
                    wire,
                    fresh,
                    id,
                    at,
                ).messages
            }
        }),
{
    let (t, answered) = model::greeted(s, offer, ephemeral, nonce);
    if answered is Ok {
        law_answered_offer_only_adds(s, offer, ephemeral, nonce);
        law_what_was_kept_is_read(s, t, wire, fresh, id, at);
    }
    let (u, finished) = model::connected(s, url, initiator, accept);
    if finished is Ok && s.session->0.peer == initiator.responder {
        law_finished_connection_only_adds(s, url, initiator, accept);
        law_what_was_kept_is_read(s, u, wire, fresh, id, at);
    }
}

/// A text that one of two linked peers sends arrives when it is delivered, and likewise when it is
/// pulled: it is the text in the other's chat, the two stay linked, and the other sends under that
/// session from then on, unless it sends under a later one.
///
/// The messages that it passes over have to fit in the window, and a key that is drawn for a first
/// chain has to be new.
pub proof fn law_text_arrives(
    a: PeerState,
    b: PeerState,
    j: nat,
    body: Seq<char>,
    fresh: KeyPair,
    nonce: Seq<u8>,
    after: PeerState,
    out: Sendable,
    other: KeyPair,
    id: Seq<char>,
    at: Timestamp,
)
    requires
        linked(a, a.ring().current, b, j),
        ratchet::can_send(a.ratchet()),
        model::sending(a, body, fresh, nonce) == (after, Ok::<Sendable, Fault>(out)),
        ratchet::encrypts(
            a.ratchet(),
            fresh,
            encode_utf8(body),
            after.ratchet(),
            out.wire.message,
        ),
        a.ratchet().cks is None ==> conversation::new_to(fresh, ratchet_of(b, j)),
        conversation::in_window(ratchet_of(b, j), out.wire.message.header),
        ratchet::starts_chain(ratchet_of(b, j), out.wire.message.header) ==> other.valid(),
        unread_before(b, j, out.wire.message),
    ensures
        ({
            let (read, r) = model::delivered(b, out.wire, other, id, at);
            &&& r == Ok::<(), Refused>(())
            &&& read.messages == b.messages.push(Chat { id, direction: "in"@, body, at })
            &&& linked(after, after.ring().current, read, j)
            &&& same_but(b, read, j)
            &&& read.ring().current == if b.ring().current < j {
                j
            } else {
                b.ring().current
            }
            &&& model::pulled_one(b, out.wire, other, id, at) == read
        }),
{
    let x = a.ratchet();
    let y = ratchet_of(b, j);
    let plaintext = encode_utf8(body);
    conversation::law_sending_keeps_step(x, y, fresh, plaintext, after.ratchet(), out.wire.message);
    conversation::law_reading_keeps_step(after.ratchet(), y, other, out.wire.message, plaintext);
    lemma_text_is_read(body);
    lemma_read_in(b, j, other, out.wire.message);
}

/// A text comes back from the bytes that it is sent as.
proof fn lemma_text_is_read(body: Seq<char>)
    ensures
        text::text_of(encode_utf8(body)) == Some(body),
        body.len() > 0 ==> encode_utf8(body).len() > 0,
{
    encode_utf8_valid_utf8(body);
    encode_utf8_decode_utf8(body);
    if body.len() > 0 {
        encode_utf8_first_scalar(body);
    }
}

/// A message that session `j` reads, and none before it, is read there.
proof fn lemma_read_in(b: PeerState, j: nat, fresh: KeyPair, msg: Message)
    requires
        j < b.ring().held.len(),
        ratchet::decrypted(ratchet_of(b, j), fresh, msg).1 is Ok,
        unread_before(b, j, msg),
    ensures
        ({
            let (read, r) = ratchet::decrypted(ratchet_of(b, j), fresh, msg);
            b.ring().reading(fresh, msg) == (b.ring().with_ratchet(j as int, read).known(j), r)
        }),
{
    ratchet::law_plaintext_is_not_drawn(
        ratchet_of(b, j),
        fresh,
        KeyPair { secret: Seq::empty(), public: Seq::empty() },
        msg,
    );
    sessions::lemma_reads_in(b.ring(), j, fresh, msg);
}

/// Texts that are delivered in the order in which they were sent arrive, in both directions, for as
/// long as the two peers go on: each leaves them up to date.
///
/// A key that is drawn for a first chain has to be new.
pub proof fn law_texts_in_order_arrive(
    a: PeerState,
    b: PeerState,
    j: nat,
    body: Seq<char>,
    fresh: KeyPair,
    nonce: Seq<u8>,
    after: PeerState,
    out: Sendable,
    other: KeyPair,
    id: Seq<char>,
    at: Timestamp,
)
    requires
        up_to_date(a, a.ring().current, b, j),
        ratchet_of(b, j).skipped.len() <= ratchet::MAX_SKIP,
        ratchet::can_send(a.ratchet()),
        model::sending(a, body, fresh, nonce) == (after, Ok::<Sendable, Fault>(out)),
        ratchet::encrypts(
            a.ratchet(),
            fresh,
            encode_utf8(body),
            after.ratchet(),
            out.wire.message,
        ),
        a.ratchet().cks is None ==> conversation::new_to(fresh, ratchet_of(b, j)),
        ratchet::starts_chain(ratchet_of(b, j), out.wire.message.header) ==> other.valid(),
        unread_before(b, j, out.wire.message),
    ensures
        ({
            let (read, r) = model::delivered(b, out.wire, other, id, at);
            &&& r == Ok::<(), Refused>(())
            &&& read.messages == b.messages.push(Chat { id, direction: "in"@, body, at })
            &&& up_to_date(after, after.ring().current, read, j)
            &&& ratchet_of(read, j).skipped == ratchet_of(b, j).skipped
        }),
{
    let x = a.ratchet();
    let y = ratchet_of(b, j);
    let plaintext = encode_utf8(body);
    conversation::law_messages_in_order_are_read(
        x,
        y,
        fresh,
        plaintext,
        after.ratchet(),
        out.wire.message,
        other,
    );
    conversation::law_sending_keeps_step(x, y, fresh, plaintext, after.ratchet(), out.wire.message);
    assert(conversation::in_window(y, out.wire.message.header));
    law_text_arrives(a, b, j, body, fresh, nonce, after, out, other, id, at);
    lemma_read_in(b, j, other, out.wire.message);
}

/// The messages of a list of wires.
pub open spec fn messages_of(wires: Seq<Wire>) -> Seq<Message> {
    wires.map_values(|w: Wire| w.message)
}

/// The bytes that texts are sent as.
pub open spec fn encoded(texts: Seq<Seq<char>>) -> Seq<Seq<u8>> {
    texts.map_values(|t: Seq<char>| encode_utf8(t))
}

/// The chat entries of texts that were received, one for each draw.
pub open spec fn entries(texts: Seq<Seq<char>>, draws: Seq<Draw>) -> Seq<Chat> {
    Seq::new(
        texts.len(),
        |k: int| Chat { id: draws[k].id, direction: "in"@, body: texts[k], at: draws[k].at },
    )
}

/// The wires are what `x` has sent in its session `i` and `y` has not read in its session `j`, in
/// the order in which it was sent, and these are their texts.
pub open spec fn waiting(
    x: PeerState,
    i: nat,
    y: PeerState,
    j: nat,
    wires: Seq<Wire>,
    texts: Seq<Seq<char>>,
) -> bool {
    &&& linked(x, i, y, j)
    &&& wires.len() == texts.len()
    &&& conversation::backlog(
        ratchet_of(x, i),
        ratchet_of(y, j),
        messages_of(wires),
        encoded(texts),
    )
    &&& forall|k: int|
        0 <= k < wires.len() ==> (#[trigger] wires[k]).from == x.identity.text() && 0
            < encode_utf8(texts[k]).len() <= model::MAX_BODY
}

/// What is drawn while wires are read are key pairs.
pub open spec fn drawn_for(draws: Seq<Draw>) -> bool {
    forall|k: int| 0 <= k < draws.len() ==> (#[trigger] draws[k]).fresh.valid()
}

/// No session of `y` before number `j` reads one of the wires.
pub open spec fn all_unread_before(y: PeerState, j: nat, wires: Seq<Wire>) -> bool {
    forall|k: int| 0 <= k < wires.len() ==> unread_before(y, j, (#[trigger] wires[k]).message)
}

/// Nothing waits between two peers that are up to date.
pub proof fn law_nothing_waits_when_up_to_date(a: PeerState, i: nat, b: PeerState, j: nat)
    requires
        up_to_date(a, i, b, j),
        ratchet_of(b, j).skipped.len() <= ratchet::MAX_SKIP,
    ensures
        waiting(a, i, b, j, Seq::empty(), Seq::empty()),
{
    conversation::lemma_caught_up_has_no_backlog(ratchet_of(a, i), ratchet_of(b, j));
    assert(messages_of(Seq::empty()) =~= Seq::empty());
    assert(encoded(Seq::empty()) =~= Seq::empty());
}

/// A text that is not delivered waits in the mailbox, behind those that wait already.
///
/// A key that is drawn for a first chain has to be new.
pub proof fn law_undelivered_text_waits(
    x: PeerState,
    y: PeerState,
    j: nat,
    texts: Seq<Seq<char>>,
    body: Seq<char>,
    fresh: KeyPair,
    nonce: Seq<u8>,
    sealed: PeerState,
    out: Sendable,
    id: Seq<char>,
    at: Timestamp,
)
    requires
        waiting(x, x.ring().current, y, j, x.outbox, texts),
        ratchet::can_send(x.ratchet()),
        model::sending(x, body, fresh, nonce) == (sealed, Ok::<Sendable, Fault>(out)),
        ratchet::encrypts(
            x.ratchet(),
            fresh,
            encode_utf8(body),
            sealed.ratchet(),
            out.wire.message,
        ),
        x.ratchet().cks is None ==> conversation::new_to(fresh, ratchet_of(y, j)),
        x.outbox.len() < model::MAX_OUTBOX,
    ensures
        ({
            let (after, r) = model::sent(sealed, out, false, id, at);
            &&& r is Ok
            &&& after.outbox == x.outbox.push(out.wire)
            &&& after.ring().current == x.ring().current
            &&& waiting(after, x.ring().current, y, j, after.outbox, texts.push(body))
        }),
{
    let after = model::sent(sealed, out, false, id, at).0;
    conversation::law_sending_extends_backlog(
        x.ratchet(),
        ratchet_of(y, j),
        fresh,
        encode_utf8(body),
        sealed.ratchet(),
        out.wire.message,
        messages_of(x.outbox),
        encoded(texts),
    );
    assert(messages_of(after.outbox) =~= messages_of(x.outbox).push(out.wire.message));
    assert(encoded(texts.push(body)) =~= encoded(texts).push(encode_utf8(body)));
    lemma_text_is_read(body);
    assert forall|k: int| 0 <= k < after.outbox.len() implies (#[trigger] after.outbox[k]).from
        == x.identity.text() && 0 < encode_utf8(texts.push(body)[k]).len() <= model::MAX_BODY by {
        if k < x.outbox.len() {
            assert(after.outbox[k] == x.outbox[k]);
        }
    }
}

/// After the first `k` wires, those texts are in the chat, and the others still wait.
proof fn lemma_first_wires_arrive(
    x: PeerState,
    i: nat,
    y: PeerState,
    j: nat,
    wires: Seq<Wire>,
    texts: Seq<Seq<char>>,
    draws: Seq<Draw>,
    k: nat,
)
    requires
        waiting(x, i, y, j, wires, texts),
        draws.len() == wires.len(),
        drawn_for(draws),
        all_unread_before(y, j, wires),
        k <= wires.len(),
    ensures
        ({
            let read = model::pulled(y, wires.take(k as int), draws.take(k as int));
            &&& read.messages == y.messages + entries(texts.take(k as int), draws.take(k as int))
            &&& waiting(x, i, read, j, wires.skip(k as int), texts.skip(k as int))
            &&& same_but(y, read, j)
        }),
    decreases k,
{
    if k == 0 {
        assert(wires.take(0) =~= Seq::empty());
        assert(wires.skip(0) =~= wires);
        assert(texts.skip(0) =~= texts);
        assert(entries(texts.take(0), draws.take(0)) =~= Seq::empty());
    } else {
        let before = (k - 1) as nat;
        lemma_first_wires_arrive(x, i, y, j, wires, texts, draws, before);
        let read = model::pulled(y, wires.take(before as int), draws.take(before as int));
        assert(wires.take(k as int).drop_last() =~= wires.take(before as int));
        assert(draws.take(k as int).drop_last() =~= draws.take(before as int));
        let rest = wires.skip(before as int);
        let rest_texts = texts.skip(before as int);
        let wire = wires[before as int];
        let draw = draws[before as int];
        assert(wires.take(k as int).last() == wire);
        assert(draws.take(k as int).last() == draw);
        assert(rest[0] == wire && rest_texts[0] == texts[before as int]);
        assert(unread_before(read, j, wire.message)) by {
            assert(unread_before(y, j, wires[before as int].message));
            assert forall|m: int| 0 <= m < j implies ratchet::plaintext_of(
                (#[trigger] read.ring().held[m]).secure.ratchet,
                wire.message,
            ) is Err by {
                assert(y.ring().held[m] == read.ring().held[m]);
            }
        }
        conversation::law_reading_shortens_backlog(
            ratchet_of(x, i),
            ratchet_of(read, j),
            draw.fresh,
            messages_of(rest),
            encoded(rest_texts),
        );
        lemma_read_in(read, j, draw.fresh, wire.message);
        lemma_text_is_read(texts[before as int]);
        assert(messages_of(rest).skip(1) =~= messages_of(wires.skip(k as int)));
        assert(encoded(rest_texts).skip(1) =~= encoded(texts.skip(k as int)));
        let after = model::pulled(y, wires.take(k as int), draws.take(k as int));
        assert(entries(texts.take(k as int), draws.take(k as int)) =~= entries(
            texts.take(before as int),
            draws.take(before as int),
        ).push(
            Chat {
                id: draw.id,
                direction: "in"@,
                body: texts[before as int],
                at: draw.at,
            },
        ));
        assert(after.messages =~= y.messages + entries(
            texts.take(k as int),
            draws.take(k as int),
        ));
        assert forall|m: int| 0 <= m < wires.skip(k as int).len() implies (
            #[trigger] wires.skip(k as int)[m]).from == x.identity.text() && 0 < encode_utf8(
            texts.skip(k as int)[m],
        ).len() <= model::MAX_BODY by {
            assert(wires.skip(k as int)[m] == wires[k + m]);
        }
    }
}

/// A whole mailbox arrives: all that waits, pulled in the order in which it was sent, is in the
/// other's chat in that order, and nothing waits then. The two stay linked, and the other sessions
/// stay as they were.
pub proof fn law_whole_mailbox_arrives(
    x: PeerState,
    i: nat,
    y: PeerState,
    j: nat,
    wires: Seq<Wire>,
    texts: Seq<Seq<char>>,
    draws: Seq<Draw>,
)
    requires
        waiting(x, i, y, j, wires, texts),
        draws.len() == wires.len(),
        drawn_for(draws),
        all_unread_before(y, j, wires),
    ensures
        ({
            let read = model::pulled(y, wires, draws);
            &&& read.messages == y.messages + entries(texts, draws)
            &&& waiting(x, i, read, j, Seq::empty(), Seq::empty())
            &&& same_but(y, read, j)
        }),
{
    let n = wires.len();
    lemma_first_wires_arrive(x, i, y, j, wires, texts, draws, n);
    assert(wires.take(n as int) =~= wires);
    assert(draws.take(n as int) =~= draws);
    assert(texts.take(n as int) =~= texts);
    assert(wires.skip(n as int) =~= Seq::empty());
    assert(texts.skip(n as int) =~= Seq::empty());
}

/// Pulling wires, and then others, pulls them all: what was sealed in one session may wait in front
/// of what was sealed in the next.
pub proof fn law_pulling_goes_on(
    s: PeerState,
    first: Seq<Wire>,
    first_draws: Seq<Draw>,
    then_wires: Seq<Wire>,
    then_draws: Seq<Draw>,
)
    requires
        first.len() == first_draws.len(),
        then_wires.len() == then_draws.len(),
    ensures
        model::pulled(s, first + then_wires, first_draws + then_draws) == model::pulled(
            model::pulled(s, first, first_draws),
            then_wires,
            then_draws,
        ),
    decreases then_wires.len(),
{
    if then_wires.len() == 0 {
        assert(first + then_wires =~= first);
        assert(first_draws + then_draws =~= first_draws);
    } else {
        assert((first + then_wires).drop_last() =~= first + then_wires.drop_last());
        assert((first_draws + then_draws).drop_last() =~= first_draws + then_draws.drop_last());
        law_pulling_goes_on(
            s,
            first,
            first_draws,
            then_wires.drop_last(),
            then_draws.drop_last(),
        );
    }
}

/// What was sealed in one session goes on to wait while what was sealed in another is read.
pub proof fn law_other_sessions_keep_waiting(
    x: PeerState,
    i: nat,
    y: PeerState,
    j: nat,
    wires: Seq<Wire>,
    texts: Seq<Seq<char>>,
    read: PeerState,
    other: nat,
)
    requires
        waiting(x, i, y, j, wires, texts),
        same_but(y, read, other),
        other != j,
    ensures
        waiting(x, i, read, j, wires, texts),
{
    assert(read.ring().held[j as int] == y.ring().held[j as int]);
}

/// What waits goes on to wait, in the same session, when either peer comes to further ones.
pub proof fn law_what_waits_is_kept(
    x: PeerState,
    i: nat,
    y: PeerState,
    j: nat,
    wires: Seq<Wire>,
    texts: Seq<Seq<char>>,
    x2: PeerState,
    y2: PeerState,
)
    requires
        waiting(x, i, y, j, wires, texts),
        gained(x, x2),
        gained(y, y2),
    ensures
        waiting(x2, i, y2, j, wires, texts),
        all_unread_before(y, j, wires) ==> all_unread_before(y2, j, wires),
{
    assert(x2.ring().held[i as int] == x.ring().held[i as int]);
    assert(y2.ring().held[j as int] == y.ring().held[j as int]);
    if all_unread_before(y, j, wires) {
        assert forall|k: int| 0 <= k < wires.len() implies unread_before(
            y2,
            j,
            (#[trigger] wires[k]).message,
        ) by {
            assert(unread_before(y, j, wires[k].message));
            assert forall|m: int| 0 <= m < j implies ratchet::plaintext_of(
                (#[trigger] y2.ring().held[m]).secure.ratchet,
                wires[k].message,
            ) is Err by {
                assert(y.ring().held[m] == y2.ring().held[m]);
            }
        }
    }
}

/// What waits in a mailbox before two peers shake hands again is read after it, whichever of the two
/// starts: the peer that dials asks for it under the new keys, gets all of it, and reads it; and so
/// does the peer that was dialed, with what waits for it at the peer that dialed.
pub proof fn law_mailbox_survives_handshake(
    a: PeerState,
    i: nat,
    b: PeerState,
    j: nat,
    url: Seq<char>,
    state: InitiatorState,
    offer: Offer,
    ephemeral: KeyPair,
    nonce: Seq<u8>,
    accept: Accept,
    joined: PeerState,
    after: PeerState,
    request: Pull,
    texts: Seq<Seq<char>>,
    draws: Seq<Draw>,
)
    requires
        a.valid(),
        b.valid(),
        linked(a, i, b, j),
        handshake::offers(state, offer),
        state.identity == a.identity,
        state.responder == b.identity.text(),
        model::answer_to(b, offer) is None,
        model::greeted(b, offer, ephemeral, nonce) == (after, Ok::<Accept, Refused>(accept)),
        handshake::answers(b.identity, offer, ephemeral, accept),
        model::connected(a, url, state, accept) == (joined, Ok::<(), Fault>(())),
        request.from == a.identity.text(),
        aead::seals(
            joined.ring().sending().auth_key,
            ratchet::auth_label(),
            model::pull_phrase(),
            request.proof,
        ),
        unproved_before(b, b.ring().held.len(), request.proof),
    ensures
        model::drained(after, request).1 == Ok::<Seq<Wire>, Refused>(b.outbox),
        waiting(b, j, a, i, b.outbox, texts) && draws.len() == b.outbox.len() && drawn_for(draws)
            && all_unread_before(a, i, b.outbox) ==> model::pulled(joined, b.outbox, draws).messages
            == a.messages + entries(texts, draws),
        waiting(a, i, b, j, a.outbox, texts) && draws.len() == a.outbox.len() && drawn_for(draws)
            && all_unread_before(b, j, a.outbox) ==> joined.outbox == a.outbox && model::pulled(
            after,
            a.outbox,
            draws,
        ).messages == b.messages + entries(texts, draws),
{
    law_answered_offer_only_adds(b, offer, ephemeral, nonce);
    law_finished_connection_only_adds(a, url, state, accept);
    law_handshake_links_peers(a, b, url, state, offer, ephemeral, nonce, after, accept);
    let last = (after.ring().held.len() - 1) as nat;
    assert(last == b.ring().held.len());
    assert(unproved_before(after, last, request.proof)) by {
        assert forall|k: int| 0 <= k < last implies aead::opened(
            (#[trigger] after.ring().held[k]).secure.auth_key,
            request.proof,
            ratchet::auth_label(),
        ) is Err by {
            assert(after.ring().held[k] == b.ring().held[k]);
        }
    }
    law_pull_request_is_answered(joined, after, last, request);
    if waiting(b, j, a, i, b.outbox, texts) && draws.len() == b.outbox.len() && drawn_for(draws)
        && all_unread_before(a, i, b.outbox) {
        law_what_waits_is_kept(b, j, a, i, b.outbox, texts, b, joined);
        law_whole_mailbox_arrives(b, j, joined, i, b.outbox, texts, draws);
    }
    if waiting(a, i, b, j, a.outbox, texts) && draws.len() == a.outbox.len() && drawn_for(draws)
        && all_unread_before(b, j, a.outbox) {
        law_what_waits_is_kept(a, i, b, j, a.outbox, texts, a, after);
        law_whole_mailbox_arrives(a, i, after, j, a.outbox, texts, draws);
    }
}

} // verus!
