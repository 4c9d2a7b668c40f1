//! A chat between a host and a client that cannot be dialed: the host leaves a text in its mailbox,
//! the client pulls it and sends one back, over and over.
use crate::crypto::aead;
use crate::crypto::conversation;
use crate::crypto::error::CryptoError;
use crate::crypto::keys::KeyPair;
use crate::crypto::ratchet;
use crate::peer::delivery;
use crate::peer::model;
use crate::peer::model::{Draw, PeerState, Sendable};
use crate::peer::stamp::Timestamp;
use crate::peer::types::{Chat, Fault, Pull, Refused, Wire};
use vstd::prelude::*;
use vstd::utf8::*;

verus! {

/// What is said in a round, and what is drawn for it: for the text of the host, when the client pulls
/// it, for the text of the client, and when the host takes that.
pub struct Round {
    pub host_text: Seq<char>,
    pub client_text: Seq<char>,
    pub host_key: KeyPair,
    pub host_nonce: Seq<u8>,
    pub request: Pull,
    pub pulled: Draw,
    pub client_key: KeyPair,
    pub client_nonce: Seq<u8>,
    pub taken: Draw,
    pub id: Seq<char>,
    pub at: Timestamp,
}

/// The host once it has left its text.
pub open spec fn left(h: PeerState, r: Round) -> PeerState {
    match model::sending(h, r.host_text, r.host_key, r.host_nonce) {
        (sealed, Ok(out)) => model::sent(sealed, out, false, r.id, r.at).0,
        (sealed, Err(_)) => sealed,
    }
}

/// The host once the client has pulled what waits for it.
pub open spec fn emptied(h: PeerState, r: Round) -> PeerState {
    model::drained(left(h, r), r.request).0
}

/// What the client gets out of the mailbox.
pub open spec fn got(h: PeerState, r: Round) -> Seq<Wire> {
    match model::drained(left(h, r), r.request).1 {
        Ok(list) => list,
        Err(_) => Seq::empty(),
    }
}

/// The client once it has read what it got.
pub open spec fn informed(h: PeerState, c: PeerState, r: Round) -> PeerState {
    model::pulled(c, got(h, r), seq![r.pulled])
}

/// The message that the client sends.
pub open spec fn reply(h: PeerState, c: PeerState, r: Round) -> (
    PeerState,
    Result<Sendable, Fault>,
) {
    model::sending(informed(h, c, r), r.client_text, r.client_key, r.client_nonce)
}

/// Both peers after a round.
pub open spec fn after_round(h: PeerState, c: PeerState, r: Round) -> (PeerState, PeerState) {
    match reply(h, c, r) {
        (sealed, Ok(out)) => {
            let (read, taken) = model::delivered(
                emptied(h, r),
                out.wire,
                r.taken.fresh,
                r.taken.id,
                r.taken.at,
            );
            (read, model::sent(sealed, out, taken is Ok, r.id, r.at).0)
        },
        (sealed, Err(_)) => (emptied(h, r), sealed),
    }
}

/// Both peers after some rounds.
pub open spec fn after_rounds(h: PeerState, c: PeerState, rounds: Seq<Round>) -> (
    PeerState,
    PeerState,
)
    decreases rounds.len(),
{
    if rounds.len() == 0 {
        (h, c)
    } else {
        let (g, b) = after_rounds(h, c, rounds.drop_last());
        after_round(g, b, rounds.last())
    }
}

/// The two stand as they do between rounds: up to date in the sessions that they send under, with
/// nothing in the host's mailbox.
pub open spec fn between_rounds(h: PeerState, i: nat, c: PeerState, j: nat) -> bool {
    &&& delivery::up_to_date(h, i, c, j)
    &&& h.ring().current == i
    &&& c.ring().current == j
    &&& h.outbox.len() == 0
    &&& delivery::ratchet_of(h, i).skipped.len() <= ratchet::MAX_SKIP
    &&& delivery::ratchet_of(c, j).skipped.len() <= ratchet::MAX_SKIP
}

/// What a peer does when it sends a text: it draws a key as it should, and seals a message that can
/// be read. Where it has no chain yet, a new key came.
pub open spec fn sends(
    s: PeerState,
    body: Seq<char>,
    key: KeyPair,
    nonce: Seq<u8>,
) -> bool {
    &&& model::unsendable(s, body) is None
    &&& ratchet::can_send(s.ratchet())
    &&& model::drawn_to_send(s, key)
    &&& s.ratchet().cks is None ==> ratchet::new_key(s.ratchet(), key)
    &&& model::sending(s, body, key, nonce) matches (sealed, Ok(out)) && ratchet::encrypts(
        s.ratchet(),
        key,
        encode_utf8(body),
        sealed.ratchet(),
        out.wire.message,
    )
}

/// A round as the two peers go through it: both send, the client proves who it is, and keys are drawn
/// as they should be.
pub open spec fn is_round(h: PeerState, i: nat, c: PeerState, j: nat, r: Round) -> bool {
    &&& sends(h, r.host_text, r.host_key, r.host_nonce)
    &&& r.request.from == c.identity.text()
    &&& aead::seals(
        c.ring().sending().auth_key,
        ratchet::auth_label(),
        model::pull_phrase(),
        r.request.proof,
    )
    &&& delivery::unproved_before(h, i, r.request.proof)
    &&& got(h, r).len() > 0 ==> model::drawn_for(c, got(h, r)[0], r.pulled.fresh)
        && delivery::unread_before(c, j, got(h, r)[0].message)
    &&& sends(informed(h, c, r), r.client_text, r.client_key, r.client_nonce)
    &&& reply(h, c, r).1 matches Ok(out) ==> model::drawn_for(
        emptied(h, r),
        out.wire,
        r.taken.fresh,
    ) && delivery::unread_before(emptied(h, r), i, out.wire.message)
}

/// Rounds as two peers go through them, one after the other.
pub open spec fn are_rounds(
    h: PeerState,
    i: nat,
    c: PeerState,
    j: nat,
    rounds: Seq<Round>,
) -> bool
    decreases rounds.len(),
{
    rounds.len() == 0 || {
        let (g, b) = after_rounds(h, c, rounds.drop_last());
        are_rounds(h, i, c, j, rounds.drop_last()) && is_round(g, i, b, j, rounds.last())
    }
}

/// What a peer sends is new to the other where it starts a chain.
proof fn lemma_sent_key_is_new(a: PeerState, i: nat, b: PeerState, j: nat, key: KeyPair)
    requires
        delivery::linked(a, i, b, j),
        a.ring().current == i,
        a.ratchet().cks is None ==> ratchet::new_key(a.ratchet(), key),
    ensures
        a.ratchet().cks is None ==> conversation::new_to(key, delivery::ratchet_of(b, j)),
{
    if a.ratchet().cks is None {
        conversation::lemma_new_key_is_new_to_the_other(
            a.ratchet(),
            delivery::ratchet_of(b, j),
            key,
        );
    }
}

/// In a round both texts arrive, and the two stand as before.
pub proof fn law_round_arrives(h: PeerState, i: nat, c: PeerState, j: nat, r: Round)
    requires
        between_rounds(h, i, c, j),
        is_round(h, i, c, j, r),
    ensures
        ({
            let (g, b) = after_round(h, c, r);
            &&& between_rounds(g, i, b, j)
            &&& g.messages == h.messages.push(
                Chat { id: r.id, direction: "out"@, body: r.host_text, at: r.at },
            ).push(
                Chat { id: r.taken.id, direction: "in"@, body: r.client_text, at: r.taken.at },
            )
            &&& b.messages == c.messages.push(
                Chat { id: r.pulled.id, direction: "in"@, body: r.host_text, at: r.pulled.at },
            ).push(Chat { id: r.id, direction: "out"@, body: r.client_text, at: r.at })
        }),
{
    let (sealed, sending) = model::sending(h, r.host_text, r.host_key, r.host_nonce);
    let out = sending->Ok_0;
    lemma_sent_key_is_new(h, i, c, j, r.host_key);
    let h2 = left(h, r);
    assert(h2.outbox =~= seq![out.wire]);
    assert(h2.ring() == sealed.ring());
    assert forall|k: int| 0 <= k < i implies #[trigger] h2.ring().held[k] == h.ring().held[k] by {}
    assert(delivery::unproved_before(h2, i, r.request.proof)) by {
        assert forall|k: int| 0 <= k < i implies aead::opened(
            (#[trigger] h2.ring().held[k]).secure.auth_key,
            r.request.proof,
            ratchet::auth_label(),
        ) is Err by {
            assert(h.ring().held[k] == h2.ring().held[k]);
        }
    }
    conversation::law_sending_keeps_step(
        h.ratchet(),
        delivery::ratchet_of(c, j),
        r.host_key,
        encode_utf8(r.host_text),
        sealed.ratchet(),
        out.wire.message,
    );
    assert(delivery::linked(c, j, h2, i)) by {
        assert(conversation::in_step(delivery::ratchet_of(c, j), delivery::ratchet_of(h2, i)));
    }
    delivery::law_pull_request_is_answered(c, h2, i, r.request);
    assert(got(h, r) == h2.outbox);
    let h3 = emptied(h, r);
    assert(h3.ring() =~= sealed.ring());
    let draw = r.pulled;
    delivery::law_texts_in_order_arrive(
        h,
        c,
        j,
        r.host_text,
        r.host_key,
        r.host_nonce,
        sealed,
        out,
        draw.fresh,
        draw.id,
        draw.at,
    );
    assert(conversation::in_window(delivery::ratchet_of(c, j), out.wire.message.header)) by {
        conversation::law_messages_in_order_are_read(
            h.ratchet(),
            delivery::ratchet_of(c, j),
            r.host_key,
            encode_utf8(r.host_text),
            sealed.ratchet(),
            out.wire.message,
            draw.fresh,
        );
    }
    delivery::law_text_arrives(
        h,
        c,
        j,
        r.host_text,
        r.host_key,
        r.host_nonce,
        sealed,
        out,
        draw.fresh,
        draw.id,
        draw.at,
    );
    let c1 = informed(h, c, r);
    assert(c1 == model::pulled_one(c, out.wire, draw.fresh, draw.id, draw.at)) by {
        reveal_with_fuel(model::pulled, 2);
        assert(got(h, r).drop_last() =~= Seq::empty());
        assert(got(h, r).last() == out.wire);
    }
    assert(delivery::up_to_date(c1, j, h3, i));
    let (replied, answer) = reply(h, c, r);
    let out2 = answer->Ok_0;
    lemma_sent_key_is_new(c1, j, h3, i, r.client_key);
    delivery::law_texts_in_order_arrive(
        c1,
        h3,
        i,
        r.client_text,
        r.client_key,
        r.client_nonce,
        replied,
        out2,
        r.taken.fresh,
        r.taken.id,
        r.taken.at,
    );
    delivery::law_text_arrives(
        c1,
        h3,
        i,
        r.client_text,
        r.client_key,
        r.client_nonce,
        replied,
        out2,
        r.taken.fresh,
        r.taken.id,
        r.taken.at,
    );
}

/// The chat of a peer is what it was, and then what was said in the rounds: in each the text of the
/// host and then that of the client, one of them the peer's own.
pub open spec fn told(
    before: Seq<Chat>,
    after: Seq<Chat>,
    rounds: Seq<Round>,
    by_host: Seq<char>,
    by_client: Seq<char>,
) -> bool {
    &&& after.len() == before.len() + 2 * rounds.len()
    &&& after.take(before.len() as int) == before
    &&& forall|k: int|
        #![trigger rounds[k]]
        0 <= k < rounds.len() ==> {
            let first = after[before.len() + 2 * k];
            let second = after[before.len() + 2 * k + 1];
            &&& first.body == rounds[k].host_text
            &&& first.direction == by_host
            &&& second.body == rounds[k].client_text
            &&& second.direction == by_client
        }
}

proof fn lemma_told_on(
    before: Seq<Chat>,
    after: Seq<Chat>,
    rounds: Seq<Round>,
    by_host: Seq<char>,
    by_client: Seq<char>,
    first: Chat,
    second: Chat,
)
    requires
        rounds.len() > 0,
        told(before, after, rounds.drop_last(), by_host, by_client),
        first.body == rounds.last().host_text,
        first.direction == by_host,
        second.body == rounds.last().client_text,
        second.direction == by_client,
    ensures
        told(before, after.push(first).push(second), rounds, by_host, by_client),
{
    let all = after.push(first).push(second);
    let earlier = rounds.drop_last();
    assert(all.take(before.len() as int) =~= after.take(before.len() as int));
    assert forall|k: int| #![trigger rounds[k]] 0 <= k < rounds.len() implies {
        let first = all[before.len() + 2 * k];
        let second = all[before.len() + 2 * k + 1];
        &&& first.body == rounds[k].host_text
        &&& first.direction == by_host
        &&& second.body == rounds[k].client_text
        &&& second.direction == by_client
    } by {
        if k < earlier.len() {
            assert(earlier[k] == rounds[k]);
            assert(all[before.len() + 2 * k] == after[before.len() + 2 * k]);
            assert(all[before.len() + 2 * k + 1] == after[before.len() + 2 * k + 1]);
        }
    }
}

/// Every text of every round arrives: for as long as the host leaves texts, and the client pulls them
/// and answers, each text is in the chat of the other, in its place.
pub proof fn law_every_round_arrives(
    h: PeerState,
    i: nat,
    c: PeerState,
    j: nat,
    rounds: Seq<Round>,
)
    requires
        between_rounds(h, i, c, j),
        are_rounds(h, i, c, j, rounds),
    ensures
        ({
            let (g, b) = after_rounds(h, c, rounds);
            &&& between_rounds(g, i, b, j)
            &&& told(h.messages, g.messages, rounds, "out"@, "in"@)
            &&& told(c.messages, b.messages, rounds, "in"@, "out"@)
        }),
    decreases rounds.len(),
{
    if rounds.len() > 0 {
        let before = rounds.drop_last();
        law_every_round_arrives(h, i, c, j, before);
        let (g, b) = after_rounds(h, c, before);
        let r = rounds.last();
        law_round_arrives(g, i, b, j, r);
        lemma_told_on(
            h.messages,
            g.messages,
            rounds,
            "out"@,
            "in"@,
            Chat { id: r.id, direction: "out"@, body: r.host_text, at: r.at },
            Chat { id: r.taken.id, direction: "in"@, body: r.client_text, at: r.taken.at },
        );
        lemma_told_on(
            c.messages,
            b.messages,
            rounds,
            "in"@,
            "out"@,
            Chat { id: r.pulled.id, direction: "in"@, body: r.host_text, at: r.pulled.at },
            Chat { id: r.id, direction: "out"@, body: r.client_text, at: r.at },
        );
    } else {
        assert(h.messages.take(h.messages.len() as int) =~= h.messages);
        assert(c.messages.take(c.messages.len() as int) =~= c.messages);
    }
}

} // verus!
