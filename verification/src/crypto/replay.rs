//! No message is accepted twice.
//!
//! The key of a message is gone once the message was read, and nothing that happens to the ratchet
//! brings it back: not a message that is sent, nor one that is received, be it genuine, garbled or
//! someone else's. That holds where the key derivation gives no key twice; and where the cipher
//! opens a payload under its own key alone, the message is then refused.
use crate::crypto::aead;
use crate::crypto::conversation;
use crate::crypto::kdf;
use crate::crypto::keys;
use crate::crypto::keys::KeyPair;
use crate::crypto::ratchet;
use crate::crypto::ratchet::{Header, Message, RatchetState};
use vstd::prelude::*;

verus! {

/// The key under which a ratchet tries to open a message with this header.
pub open spec fn reading_key(y: RatchetState, header: Header) -> Option<Seq<u8>> {
    let place = (header.dh, header.n);
    if y.skipped.contains_key(place) {
        Some(y.skipped[place])
    } else {
        match keys::parse_key(header.dh) {
            Err(_) => None,
            Ok(remote) => if !ratchet::names_current_key(y, header) {
                Some(chain_key(conversation::chain_from(y, remote), header.n as nat))
            } else if y.ckr is None {
                None
            } else if header.n < y.nr {
                Some(chain_key(y.ckr->0, 0))
            } else {
                Some(chain_key(y.ckr->0, (header.n - y.nr) as nat))
            },
        }
    }
}

/// The message key `i` steps along a chain.
pub open spec fn chain_key(ck: Seq<u8>, i: nat) -> Seq<u8> {
    kdf::message_key(kdf::advanced(ck, i))
}

/// A chain never comes to a key.
pub open spec fn chain_avoids(ck: Seq<u8>, own: Seq<u8>) -> bool {
    forall|i: nat| #[trigger] chain_key(ck, i) != own
}

/// A chain comes to a key at one step at most.
pub open spec fn chain_has_only_at(ck: Seq<u8>, at: nat, own: Seq<u8>) -> bool {
    forall|i: nat| i != at ==> #[trigger] chain_key(ck, i) != own
}

/// A key is gone: it is not kept, and the receiving chain never comes to it.
pub open spec fn gone(y: RatchetState, own: Seq<u8>) -> bool {
    &&& forall|p: (Seq<char>, u32)| #[trigger] y.skipped.contains_key(p) ==> y.skipped[p] != own
    &&& y.ckr is Some ==> chain_avoids(y.ckr->0, own)
}

/// The chain that a message would start, if it starts one, never comes to a key.
pub open spec fn start_avoids(y: RatchetState, header: Header, own: Seq<u8>) -> bool {
    ratchet::starts_chain(y, header) ==> chain_avoids(
        conversation::chain_from(y, keys::parse_key(header.dh)->Ok_0),
        own,
    )
}

/// The key of a message stands nowhere but where the message takes it from.
pub open spec fn stands_once(y: RatchetState, header: Header, own: Seq<u8>) -> bool {
    let place = (header.dh, header.n);
    &&& forall|p: (Seq<char>, u32)|
        #[trigger] y.skipped.contains_key(p) && p != place ==> y.skipped[p] != own
    &&& y.ckr is Some ==> if !y.skipped.contains_key(place) && ratchet::names_current_key(
        y,
        header,
    ) {
        chain_has_only_at(
            y.ckr->0,
            if header.n < y.nr {
                0
            } else {
                (header.n - y.nr) as nat
            },
            own,
        )
    } else {
        chain_avoids(y.ckr->0, own)
    }
    &&& ratchet::starts_chain(y, header) ==> chain_has_only_at(
        conversation::chain_from(y, keys::parse_key(header.dh)->Ok_0),
        header.n as nat,
        own,
    )
}

/// A payload opens under one key alone.
pub open spec fn opens_only_under(msg: Message, own: Seq<u8>) -> bool {
    forall|key: Seq<u8>|
        #![trigger aead::opened(key, msg.payload, ratchet::header_bytes(msg.header))]
        key != own ==> aead::opened(key, msg.payload, ratchet::header_bytes(msg.header)) is Err
}

/// The state in which a message that starts a chain is read.
spec fn started(y: RatchetState, fresh: KeyPair, header: Header) -> RatchetState {
    let t = ratchet::skipped_to(y, header.pn as nat).0;
    ratchet::ratcheted_by_receiving(t, keys::parse_key(header.dh)->Ok_0, fresh).0
}

/// Before a chain is started, the one before it is passed over, which leaves the root alone.
proof fn lemma_started(y: RatchetState, fresh: KeyPair, msg: Message)
    requires
        y.valid(),
        ratchet::starts_chain(y, msg.header),
        ratchet::decrypted(y, fresh, msg).1 is Ok,
    ensures
        ({
            let u = started(y, fresh, msg.header);
            &&& u.ckr == Some(
                conversation::chain_from(y, keys::parse_key(msg.header.dh)->Ok_0),
            )
            &&& u.nr == 0
            &&& u.dhr is Some
            &&& u.skipped == ratchet::skipped_to(y, msg.header.pn as nat).0.skipped
            &&& u.skipped.dom().finite()
            &&& ratchet::skipped_each(u, msg.header.n as nat).1 is Ok
            &&& conversation::passed(
                u,
                ratchet::skipped_each(u, msg.header.n as nat).0,
                msg.header.n as nat,
            )
        }),
{
    if conversation::can_close_chain(y, msg.header.pn as nat) {
        conversation::lemma_passing_each(y, msg.header.pn as nat);
    }
    conversation::lemma_passing_each(started(y, fresh, msg.header), msg.header.n as nat);
}

/// A message that is read opened under the key that the ratchet tried.
pub proof fn law_message_opens_under_its_key(y: RatchetState, fresh: KeyPair, msg: Message)
    requires
        y.valid(),
        ratchet::decrypted(y, fresh, msg).1 is Ok,
    ensures
        reading_key(y, msg.header) matches Some(key) && aead::opened(
            key,
            msg.payload,
            ratchet::header_bytes(msg.header),
        ) == ratchet::decrypted(y, fresh, msg).1,
{
    let n = msg.header.n as nat;
    if y.skipped.contains_key((msg.header.dh, msg.header.n)) {
    } else if ratchet::names_current_key(y, msg.header) {
        if y.nr <= n && y.ckr is Some {
            conversation::lemma_passing_each(y, n);
        }
    } else {
        lemma_started(y, fresh, msg);
    }
}

/// Passing messages over does not bring a key back that is gone.
proof fn lemma_skipping_keeps_gone(s: RatchetState, until: nat, own: Seq<u8>)
    requires
        gone(s, own),
    ensures
        gone(ratchet::skipped_each(s, until).0, own),
    decreases until - s.nr,
{
    if s.nr < until && s.dhr is Some && s.ckr is Some {
        lemma_next_avoids(s.ckr->0, own);
        assert(chain_key(s.ckr->0, 0) != own);
        lemma_skipping_keeps_gone(ratchet::passed_one(s), until, own);
    }
}

/// What a chain never comes to, it never comes to one step on.
proof fn lemma_next_avoids(ck: Seq<u8>, own: Seq<u8>)
    requires
        forall|i: nat| i > 0 ==> #[trigger] chain_key(ck, i) != own,
    ensures
        chain_avoids(kdf::next_chain_key(ck), own),
{
    assert(kdf::advanced(ck, 1) == kdf::next_chain_key(ck)) by {
        reveal_with_fuel(kdf::advanced, 2);
    }
    assert forall|i: nat| #[trigger] chain_key(kdf::next_chain_key(ck), i) != own by {
        kdf::lemma_advanced_adds(ck, 1, i);
        assert(chain_key(ck, 1 + i) != own);
    }
}

/// A key that is gone stays gone, whatever message the ratchet is given, and whether or not it can
/// be decrypted. The chain that the message would start must not come to the key.
pub proof fn law_gone_survives_any_message(
    y: RatchetState,
    fresh: KeyPair,
    msg: Message,
    own: Seq<u8>,
)
    requires
        gone(y, own),
        start_avoids(y, msg.header, own),
    ensures
        gone(ratchet::decrypted(y, fresh, msg).0, own),
{
    let n = msg.header.n as nat;
    let pn = msg.header.pn as nat;
    lemma_skipping_keeps_gone(y, n, own);
    lemma_skipping_keeps_gone(y, pn, own);
    ratchet::lemma_skipped_keeps_keys(y, pn);
    let v = if ratchet::names_current_key(y, msg.header) {
        ratchet::skipped_to(y, n).0
    } else {
        let u = started(y, fresh, msg.header);
        if ratchet::starts_chain(y, msg.header) {
            let t = ratchet::skipped_to(y, pn).0;
            assert(t.dhs is Some ==> gone(u, own));
            if t.dhs is Some {
                lemma_skipping_keeps_gone(u, n, own);
            }
        }
        ratchet::skipped_to(u, n).0
    };
    if v.ckr is Some && chain_avoids(v.ckr->0, own) {
        lemma_next_avoids(v.ckr->0, own);
    }
}

/// A key that is gone stays gone when the ratchet sends.
pub proof fn law_gone_survives_sending(
    y: RatchetState,
    fresh: KeyPair,
    nonce: Seq<u8>,
    plaintext: Seq<u8>,
    own: Seq<u8>,
)
    requires
        gone(y, own),
    ensures
        gone(ratchet::encrypted(y, fresh, nonce, plaintext).0, own),
{
}

/// The key of a message that was read is gone, if it stood nowhere else.
pub proof fn law_read_key_is_gone(y: RatchetState, fresh: KeyPair, msg: Message)
    requires
        y.valid(),
        ratchet::decrypted(y, fresh, msg).1 is Ok,
        reading_key(y, msg.header) matches Some(own) && stands_once(y, msg.header, own),
    ensures
        gone(ratchet::decrypted(y, fresh, msg).0, reading_key(y, msg.header)->0),
{
    let own = reading_key(y, msg.header)->0;
    let n = msg.header.n as nat;
    let after = ratchet::decrypted(y, fresh, msg).0;
    if y.skipped.contains_key((msg.header.dh, msg.header.n)) {
        assert forall|p: (Seq<char>, u32)| #[trigger] after.skipped.contains_key(p) implies after.skipped[p]
            != own by {
            assert(y.skipped.contains_key(p));
        }
    } else if ratchet::names_current_key(y, msg.header) {
        assert forall|p: (Seq<char>, u32)| #[trigger] y.skipped.contains_key(p) implies y.skipped[p]
            != own by {}
        if y.nr <= n {
            conversation::lemma_passing_each(y, n);
            lemma_passed_is_gone(y, ratchet::skipped_each(y, n).0, n, own);
            assert(after.skipped == ratchet::skipped_each(y, n).0.skipped);
        } else {
            lemma_next_avoids(y.ckr->0, own);
        }
    } else {
        lemma_started(y, fresh, msg);
        let u = started(y, fresh, msg.header);
        lemma_skipping_keeps_gone(y, msg.header.pn as nat, own);
        lemma_passed_is_gone(u, ratchet::skipped_each(u, n).0, n, own);
        assert(after.skipped == ratchet::skipped_each(u, n).0.skipped);
    }
}

/// Behind a key that a chain comes to only once, the key is gone.
proof fn lemma_passed_is_gone(s: RatchetState, t: RatchetState, until: nat, own: Seq<u8>)
    requires
        s.nr <= until <= u32::MAX,
        s.dhr is Some,
        s.ckr is Some,
        conversation::passed(s, t, until),
        forall|p: (Seq<char>, u32)| #[trigger] s.skipped.contains_key(p) ==> s.skipped[p] != own,
        chain_has_only_at(s.ckr->0, (until - s.nr) as nat, own),
    ensures
        t.ckr is Some,
        forall|p: (Seq<char>, u32)| #[trigger] t.skipped.contains_key(p) ==> t.skipped[p] != own,
        chain_avoids(kdf::next_chain_key(t.ckr->0), own),
{
    let k = (until - s.nr) as nat;
    assert forall|p: (Seq<char>, u32)| #[trigger] t.skipped.contains_key(p) implies t.skipped[p]
        != own by {
        let (dh, n) = p;
        assert(t.skipped.contains_key((dh, n)));
        if dh == keys::key_text(s.dhr->0) && s.nr <= n < until {
            assert(chain_key(s.ckr->0, (n - s.nr) as nat) != own);
        } else {
            assert(s.skipped.contains_key((dh, n)));
        }
    }
    assert(t.ckr->0 == kdf::advanced(s.ckr->0, k));
    assert forall|i: nat| i > 0 implies #[trigger] chain_key(t.ckr->0, i) != own by {
        kdf::lemma_advanced_adds(s.ckr->0, k, i);
        assert(chain_key(s.ckr->0, k + i) != own);
    }
    lemma_next_avoids(t.ckr->0, own);
}

/// A message whose key is gone is refused, where its payload opens under that key alone: no message
/// is accepted twice.
pub proof fn law_message_is_not_accepted_twice(
    y: RatchetState,
    fresh: KeyPair,
    msg: Message,
    own: Seq<u8>,
)
    requires
        y.valid(),
        gone(y, own),
        start_avoids(y, msg.header, own),
        opens_only_under(msg, own),
    ensures
        ratchet::decrypted(y, fresh, msg).1 is Err,
{
    if ratchet::decrypted(y, fresh, msg).1 is Ok {
        law_message_opens_under_its_key(y, fresh, msg);
    }
}

} // verus!
