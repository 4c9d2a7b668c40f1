//! Two ratchets in step: what one sends, the other reads.
//!
//! One of the two leads: it holds a key, or will draw one with its next message, that the other has
//! not seen. Sending keeps them in step, whether or not the message arrives; a message that
//! arrives, in whatever order, is read, and keeps them in step. When the follower reads the
//! leader's new key, it becomes the leader.
use crate::crypto::aead;
use crate::crypto::error::CryptoError;
use crate::crypto::kdf;
use crate::crypto::keys;
use crate::crypto::keys::KeyPair;
use crate::crypto::ratchet;
use crate::crypto::ratchet::{Header, Message, RatchetState};
use vstd::prelude::*;

verus! {

/// A ratchet keeps no key for a message of its receiving chain that is still to come.
pub open spec fn tidy(y: RatchetState) -> bool {
    y.dhr matches Some(dhr) ==> forall|n: u32|
        n >= y.nr ==> !#[trigger] y.skipped.contains_key((keys::key_text(dhr), n))
}

/// A key that a ratchet has neither as the other's current key nor under its kept keys.
pub open spec fn new_to(key: KeyPair, y: RatchetState) -> bool {
    &&& y.dhr matches Some(dhr) ==> keys::key_text(dhr) != key.text()
    &&& forall|n: u32| !#[trigger] y.skipped.contains_key((key.text(), n))
}

/// The chain that `x` sends on is the one that `y` receives on.
pub open spec fn same_chain(x: RatchetState, y: RatchetState) -> bool {
    &&& x.dhs is Some
    &&& x.cks is Some
    &&& y.ckr is Some
    &&& y.dhr == Some(x.dhs->0.public)
    &&& y.nr <= x.ns
    &&& x.cks->0 == kdf::advanced(y.ckr->0, (x.ns - y.nr) as nat)
}

/// The first key of the chain that the key `public` of the other starts, as `y` computes it.
pub open spec fn chain_from(y: RatchetState, public: Seq<u8>) -> Seq<u8> {
    kdf::first_chain_key(y.rk, y.dhs->0.shared(public))
}

/// `y` can pass over the messages before number `pn` of its receiving chain, if there are any.
pub open spec fn can_close_chain(y: RatchetState, pn: nat) -> bool {
    y.nr <= pn && (y.nr < pn ==> y.dhr is Some && y.ckr is Some)
}

/// `x` has started a chain with a key that is new to `y`.
pub open spec fn chain_ahead(x: RatchetState, y: RatchetState) -> bool {
    &&& x.dhs is Some
    &&& y.dhs is Some
    &&& x.cks is Some
    &&& x.dhr == Some(y.dhs->0.public)
    &&& x.rk == kdf::next_root_key(y.rk, y.dhs->0.shared(x.dhs->0.public))
    &&& x.cks->0 == kdf::advanced(chain_from(y, x.dhs->0.public), x.ns)
    &&& new_to(x.dhs->0, y)
    &&& can_close_chain(y, x.pn)
}

/// `x` has yet to start a chain.
pub open spec fn chain_unstarted(x: RatchetState, y: RatchetState) -> bool {
    &&& y.dhs is Some
    &&& x.cks is None
    &&& x.dhr == Some(y.dhs->0.public)
    &&& x.rk == y.rk
    &&& can_close_chain(y, x.ns)
}

/// `x` goes on with its chain, as no new key came to it for another.
pub open spec fn chain_kept(x: RatchetState, y: RatchetState) -> bool {
    &&& same_chain(x, y)
    &&& y.dhs is Some
    &&& x.dhr == Some(y.dhs->0.public)
    &&& x.rk == y.rk
}

/// `x` is the one with the newer key, or the one to draw it.
pub open spec fn leads(x: RatchetState, y: RatchetState) -> bool {
    &&& same_chain(y, x)
    &&& chain_ahead(x, y) || chain_unstarted(x, y) || chain_kept(x, y)
}

/// A key that is or was one of the own keys of `x`.
pub open spec fn own(x: RatchetState, key: Seq<char>) -> bool {
    x.used.contains(key) || (x.dhs matches Some(dhs) && dhs.text() == key)
}

/// All keys of `x` that `y` knows, `x` knows as its own.
pub open spec fn remembers(x: RatchetState, y: RatchetState) -> bool {
    &&& y.dhr matches Some(dhr) ==> own(x, keys::key_text(dhr))
    &&& forall|dh: Seq<char>, n: u32| #[trigger] y.skipped.contains_key((dh, n)) ==> own(x, dh)
}

/// A key that is or was an own key stays one when another follows the current one.
proof fn lemma_own_keys_stay(x: RatchetState, after: RatchetState)
    requires
        after.used == ratchet::used_up(x) || (after.used == x.used && after.dhs == x.dhs),
    ensures
        forall|key: Seq<char>| #[trigger] own(x, key) ==> own(after, key),
{
    assert forall|key: Seq<char>| #[trigger] own(x, key) implies own(after, key) by {
        if after.used == ratchet::used_up(x) && x.dhs is Some {
            let n = x.used.len() as int;
            assert(after.used[n] == x.dhs->0.text());
            if x.used.contains(key) {
                let i = x.used.index_of(key);
                assert(after.used[i] == key);
            }
        }
    }
}

/// A key that is new to the ratchet that draws it is new to the other.
pub proof fn lemma_new_key_is_new_to_the_other(x: RatchetState, y: RatchetState, key: KeyPair)
    requires
        in_step(x, y),
        ratchet::new_key(x, key),
    ensures
        new_to(key, y),
{
}

/// Two ratchets in step.
pub open spec fn in_step(x: RatchetState, y: RatchetState) -> bool {
    &&& x.valid() && tidy(x)
    &&& y.valid() && tidy(y)
    &&& leads(x, y) || leads(y, x)
    &&& remembers(x, y) && remembers(y, x)
}

/// How many messages `x` sent on the chain that `y` receives on.
pub open spec fn chain_length(x: RatchetState, y: RatchetState) -> nat {
    if x.cks is None || y.dhr == Some(x.dhs->0.public) {
        x.ns
    } else {
        x.pn
    }
}

/// The key that opens a message, if `msg` is one that `x` sent and `y` has not read: a key that `y`
/// has kept, or the one that it will come to on its receiving chain, or on the chain to which
/// `x` is ahead.
pub open spec fn key_for(x: RatchetState, y: RatchetState, header: Header) -> Option<Seq<u8>> {
    if y.skipped.contains_key((header.dh, header.n)) {
        Some(y.skipped[(header.dh, header.n)])
    } else if ratchet::names_current_key(y, header) {
        if y.ckr is Some && y.nr <= header.n < chain_length(x, y) {
            Some(kdf::message_key(kdf::advanced(y.ckr->0, (header.n - y.nr) as nat)))
        } else {
            None
        }
    } else {
        if chain_ahead(x, y) && keys::parse_key(header.dh) == Ok::<Seq<u8>, CryptoError>(
            x.dhs->0.public,
        ) && header.dh == x.dhs->0.text() && header.pn == x.pn && header.n < x.ns {
            Some(kdf::message_key(kdf::advanced(chain_from(y, x.dhs->0.public), header.n as nat)))
        } else {
            None
        }
    }
}

/// A message that `x` sent, in which `y` has yet to read this plaintext.
pub open spec fn outstanding(
    x: RatchetState,
    y: RatchetState,
    msg: Message,
    plaintext: Seq<u8>,
) -> bool {
    &&& x.dhs is Some
    &&& keys::parse_key(msg.header.dh) is Ok
    &&& key_for(x, y, msg.header) matches Some(key) && aead::opened(
        key,
        msg.payload,
        ratchet::header_bytes(msg.header),
    ) == Ok::<Seq<u8>, CryptoError>(plaintext)
}

/// How many messages `y` passes over to read one with this header.
pub open spec fn passed_over(y: RatchetState, header: Header) -> int {
    if y.skipped.contains_key((header.dh, header.n)) {
        0
    } else if ratchet::names_current_key(y, header) {
        header.n - y.nr
    } else {
        header.pn - y.nr + header.n
    }
}

/// The messages that `y` passes over fit beside those whose keys it keeps already.
pub open spec fn in_window(y: RatchetState, header: Header) -> bool {
    y.skipped.len() + passed_over(y, header) <= ratchet::MAX_SKIP
}

/// Two messages stand at different places: on different chains, or under different numbers.
pub open spec fn apart(a: Message, b: Message) -> bool {
    (a.header.dh, a.header.n) != (b.header.dh, b.header.n)
}

/// What passing over the messages before number `until` leaves: the chain stands at that number,
/// and the keys of the messages are kept.
pub open spec fn passed(s: RatchetState, t: RatchetState, until: nat) -> bool {
    let k = (until - s.nr) as nat;
    &&& t.dhs == s.dhs && t.dhr == s.dhr && t.rk == s.rk && t.cks == s.cks && t.used == s.used
    &&& t.ns == s.ns && t.pn == s.pn && t.nr == until
    &&& s.nr < until ==> t.ckr == Some(kdf::advanced(s.ckr->0, k))
    &&& s.nr == until ==> t == s
    &&& t.skipped.dom().finite()
    &&& t.skipped.len() <= s.skipped.len() + k
    &&& forall|dh: Seq<char>, n: u32|
        #![trigger t.skipped.contains_key((dh, n))]
        {
            let own = s.dhr is Some && dh == keys::key_text(s.dhr->0) && s.nr <= n < until;
            &&& t.skipped.contains_key((dh, n)) <==> own || s.skipped.contains_key((dh, n))
            &&& own ==> t.skipped[(dh, n)] == kdf::message_key(
                kdf::advanced(s.ckr->0, (n - s.nr) as nat),
            )
            &&& !own && s.skipped.contains_key((dh, n)) ==> t.skipped[(dh, n)] == s.skipped[(
                dh,
                n,
            )]
        }
}

/// Messages that fit in the window are passed over, and their keys kept.
pub proof fn lemma_passing(s: RatchetState, until: nat)
    requires
        can_close_chain(s, until),
        s.skipped.dom().finite(),
        until <= u32::MAX,
        s.skipped.len() + (until - s.nr) <= ratchet::MAX_SKIP,
    ensures
        ratchet::skipped_to(s, until).1 == Ok::<(), CryptoError>(()),
        passed(s, ratchet::skipped_to(s, until).0, until),
{
    lemma_passing_each(s, until);
}

/// Messages that were passed over had their keys kept.
pub proof fn lemma_passing_each(s: RatchetState, until: nat)
    requires
        can_close_chain(s, until),
        s.skipped.dom().finite(),
        until <= u32::MAX,
    ensures
        s.skipped.len() + (until - s.nr) <= ratchet::MAX_SKIP ==> ratchet::skipped_each(s, until).1
            == Ok::<(), CryptoError>(()),
        ratchet::skipped_each(s, until).1 is Ok ==> passed(
            s,
            ratchet::skipped_each(s, until).0,
            until,
        ),
    decreases until - s.nr,
{
    if s.nr < until {
        let place = (keys::key_text(s.dhr->0), s.nr as u32);
        let t = ratchet::passed_one(s);
        assert(t.skipped.dom() =~= s.skipped.dom().insert(place));
        if t.skipped.len() <= ratchet::MAX_SKIP {
            lemma_passing_each(t, until);
            if ratchet::skipped_each(t, until).1 is Ok {
                lemma_passed_one_more(s, t, ratchet::skipped_each(t, until).0, until);
            }
        }
    }
}

/// Passing one message over, and then the others, passes them all over.
proof fn lemma_passed_one_more(s: RatchetState, t: RatchetState, u: RatchetState, until: nat)
    requires
        s.nr < until <= u32::MAX,
        s.dhr is Some,
        s.ckr is Some,
        s.skipped.dom().finite(),
        t == ratchet::passed_one(s),
        passed(t, u, until),
    ensures
        passed(s, u, until),
{
    let place = (keys::key_text(s.dhr->0), s.nr as u32);
    assert(t.skipped.dom() =~= s.skipped.dom().insert(place));
    assert(kdf::advanced(s.ckr->0, 1) == t.ckr->0) by {
        reveal_with_fuel(kdf::advanced, 2);
    }
    kdf::lemma_advanced_adds(s.ckr->0, 1, (until - t.nr) as nat);
    assert forall|dh: Seq<char>, n: u32|
        #![trigger u.skipped.contains_key((dh, n))]
        {
            let own = dh == keys::key_text(s.dhr->0) && s.nr <= n < until;
            &&& u.skipped.contains_key((dh, n)) <==> own || s.skipped.contains_key((dh, n))
            &&& own ==> u.skipped[(dh, n)] == kdf::message_key(
                kdf::advanced(s.ckr->0, (n - s.nr) as nat),
            )
            &&& !own && s.skipped.contains_key((dh, n)) ==> u.skipped[(dh, n)] == s.skipped[(
                dh,
                n,
            )]
        } by {
        let own = dh == keys::key_text(s.dhr->0) && s.nr <= n < until;
        if (dh, n) == place {
            assert(t.skipped.contains_key((dh, n)));
            assert(u.skipped.contains_key((dh, n)));
            assert(u.skipped[(dh, n)] == t.skipped[(dh, n)]);
        } else if own {
            kdf::lemma_advanced_adds(s.ckr->0, 1, (n - t.nr) as nat);
        }
    }
}

/// Sending keeps two ratchets in step. The message can be read, now or later; nothing that could
/// be read before, on either side, is lost.
///
/// A key that is drawn for a new chain has to be new to the other.
pub proof fn law_sending_keeps_step(
    x: RatchetState,
    y: RatchetState,
    fresh: KeyPair,
    plaintext: Seq<u8>,
    after: RatchetState,
    msg: Message,
)
    requires
        in_step(x, y),
        ratchet::can_send(x),
        x.cks is None ==> new_to(fresh, y),
        ratchet::encrypts(x, fresh, plaintext, after, msg),
    ensures
        in_step(after, y),
        outstanding(after, y, msg, plaintext),
        forall|m: Message, p: Seq<u8>| outstanding(x, y, m, p) ==> outstanding(after, y, m, p),
        forall|m: Message, p: Seq<u8>| outstanding(y, x, m, p) ==> outstanding(y, after, m, p),
{
    let ready = ratchet::ready(x, fresh);
    if x.cks is None {
        keys::lemma_key_agreement(fresh, y.dhs->0);
    }
    // The chain that the message is sealed on, as the other comes to it.
    assert(ready.cks->0 == if same_chain(ready, y) {
        kdf::advanced(y.ckr->0, (ready.ns - y.nr) as nat)
    } else {
        kdf::advanced(chain_from(y, ready.dhs->0.public), ready.ns)
    });
    assert(after.cks->0 == kdf::next_chain_key(ready.cks->0));
    lemma_own_keys_stay(x, after);
}

/// What reading a message does to the conversation: the ratchets stay in step, and nothing else
/// that could be read, on either side, is lost.
pub open spec fn only_read(
    x: RatchetState,
    y: RatchetState,
    after: RatchetState,
    msg: Message,
) -> bool {
    &&& in_step(x, after)
    &&& forall|m: Message, p: Seq<u8>|
        outstanding(x, y, m, p) && apart(m, msg) ==> outstanding(x, after, m, p)
    &&& forall|m: Message, p: Seq<u8>| outstanding(y, x, m, p) ==> outstanding(after, x, m, p)
}

/// Reading a message whose key was kept.
proof fn lemma_reading_kept(
    x: RatchetState,
    y: RatchetState,
    fresh: KeyPair,
    msg: Message,
    plaintext: Seq<u8>,
)
    requires
        in_step(x, y),
        outstanding(x, y, msg, plaintext),
        y.skipped.contains_key((msg.header.dh, msg.header.n)),
    ensures
        ratchet::decrypted(y, fresh, msg).1 == Ok::<Seq<u8>, CryptoError>(plaintext),
        only_read(x, y, ratchet::decrypted(y, fresh, msg).0, msg),
{
}

/// Reading a message of the receiving chain.
proof fn lemma_reading_current(
    x: RatchetState,
    y: RatchetState,
    fresh: KeyPair,
    msg: Message,
    plaintext: Seq<u8>,
)
    requires
        in_step(x, y),
        outstanding(x, y, msg, plaintext),
        in_window(y, msg.header),
        !y.skipped.contains_key((msg.header.dh, msg.header.n)),
        ratchet::names_current_key(y, msg.header),
    ensures
        ratchet::decrypted(y, fresh, msg).1 == Ok::<Seq<u8>, CryptoError>(plaintext),
        only_read(x, y, ratchet::decrypted(y, fresh, msg).0, msg),
{
    let n = msg.header.n as nat;
    lemma_passing(y, n);
    let t = ratchet::skipped_to(y, n).0;
    let after = ratchet::decrypted(y, fresh, msg).0;
    assert(t.ckr->0 == kdf::advanced(y.ckr->0, (n - y.nr) as nat));
    assert(after.ckr->0 == kdf::advanced(y.ckr->0, (n + 1 - y.nr) as nat));
    assert forall|m: Message, p: Seq<u8>|
        outstanding(x, y, m, p) && apart(m, msg) implies outstanding(x, after, m, p) by {
        assert(after.skipped.contains_key((m.header.dh, m.header.n)) ==
            t.skipped.contains_key((m.header.dh, m.header.n)));
        if ratchet::names_current_key(y, m.header) && m.header.n > n {
            kdf::lemma_advanced_adds(
                y.ckr->0,
                (n + 1 - y.nr) as nat,
                (m.header.n - n - 1) as nat,
            );
        }
    }
    if same_chain(x, y) {
        kdf::lemma_advanced_adds(y.ckr->0, (n + 1 - y.nr) as nat, (x.ns - n - 1) as nat);
    }
    assert forall|dh: Seq<char>, k: u32| #[trigger] after.skipped.contains_key((dh, k)) implies own(
        x,
        dh,
    ) by {
        assert(t.skipped.contains_key((dh, k)));
        assert(y.skipped.contains_key((dh, k)) ==> own(x, dh));
    }
}

/// Reading a message of the chain to which the other is ahead.
proof fn lemma_reading_ahead(
    x: RatchetState,
    y: RatchetState,
    fresh: KeyPair,
    msg: Message,
    plaintext: Seq<u8>,
)
    requires
        in_step(x, y),
        fresh.valid(),
        outstanding(x, y, msg, plaintext),
        in_window(y, msg.header),
        !y.skipped.contains_key((msg.header.dh, msg.header.n)),
        !ratchet::names_current_key(y, msg.header),
    ensures
        ratchet::decrypted(y, fresh, msg).1 == Ok::<Seq<u8>, CryptoError>(plaintext),
        only_read(x, y, ratchet::decrypted(y, fresh, msg).0, msg),
{
    let n = msg.header.n as nat;
    let remote = x.dhs->0.public;
    keys::lemma_key_agreement(fresh, x.dhs->0);
    lemma_passing(y, x.pn);
    let t = ratchet::skipped_to(y, x.pn).0;
    let u = ratchet::ratcheted_by_receiving(t, remote, fresh).0;
    assert(u.ckr->0 == chain_from(y, remote));
    lemma_passing(u, n);
    let v = ratchet::skipped_to(u, n).0;
    let after = ratchet::decrypted(y, fresh, msg).0;
    assert(v.ckr->0 == kdf::advanced(u.ckr->0, n));
    assert(after.ckr->0 == kdf::advanced(u.ckr->0, n + 1));
    assert forall|m: Message, p: Seq<u8>|
        outstanding(x, y, m, p) && apart(m, msg) implies outstanding(x, after, m, p) by {
        let place = (m.header.dh, m.header.n);
        assert(after.skipped.contains_key(place) == v.skipped.contains_key(place));
        assert(u.skipped.contains_key(place) == t.skipped.contains_key(place));
        if !y.skipped.contains_key(place) && !ratchet::names_current_key(y, m.header)
            && m.header.n > n {
            kdf::lemma_advanced_adds(u.ckr->0, n + 1, (m.header.n - n - 1) as nat);
        }
    }
    kdf::lemma_advanced_adds(u.ckr->0, n + 1, (x.ns - n - 1) as nat);
    assert forall|dh: Seq<char>, k: u32| #[trigger] after.skipped.contains_key((dh, k)) implies own(
        x,
        dh,
    ) by {
        assert(v.skipped.contains_key((dh, k)));
        assert(u.skipped.contains_key((dh, k)) == t.skipped.contains_key((dh, k)));
        assert(y.skipped.contains_key((dh, k)) ==> own(x, dh));
    }
    lemma_own_keys_stay(y, after);
    assert(remembers(x, after) && remembers(after, x));
    if ratchet::new_key(y, fresh) {
        lemma_new_key_is_new_to_the_other(y, x, fresh);
        assert(leads(after, x));
    } else {
        assert(same_chain(after, x));
        assert(same_chain(x, after));
        assert(chain_kept(after, x));
    }
    assert(tidy(after));
}

/// A message that was sent is read, whatever the order in which messages arrive: where those
/// passed over fit in the window, the plaintext comes back. The two ratchets stay in step, and
/// nothing else that could be read, on either side, is lost. Whether the key that is drawn for a new
/// chain is new makes no difference to that.
pub proof fn law_reading_keeps_step(
    x: RatchetState,
    y: RatchetState,
    fresh: KeyPair,
    msg: Message,
    plaintext: Seq<u8>,
)
    requires
        in_step(x, y),
        outstanding(x, y, msg, plaintext),
        in_window(y, msg.header),
        ratchet::starts_chain(y, msg.header) ==> fresh.valid(),
    ensures
        ratchet::decrypted(y, fresh, msg).1 == Ok::<Seq<u8>, CryptoError>(plaintext),
        only_read(x, y, ratchet::decrypted(y, fresh, msg).0, msg),
{
    if y.skipped.contains_key((msg.header.dh, msg.header.n)) {
        lemma_reading_kept(x, y, fresh, msg, plaintext);
    } else if ratchet::names_current_key(y, msg.header) {
        lemma_reading_current(x, y, fresh, msg, plaintext);
    } else {
        lemma_reading_ahead(x, y, fresh, msg, plaintext);
    }
}

/// `y` has read all that `x` has sent.
pub open spec fn caught_up(x: RatchetState, y: RatchetState) -> bool {
    &&& y.nr == chain_length(x, y)
    &&& chain_ahead(x, y) ==> x.ns == 0
}

/// Messages that arrive in the order in which they were sent are read, however many they are: they
/// pass over none, so that no key is kept for them.
///
/// A key that is drawn for a new chain has to be new to the other.
pub proof fn law_messages_in_order_are_read(
    x: RatchetState,
    y: RatchetState,
    fresh: KeyPair,
    plaintext: Seq<u8>,
    after: RatchetState,
    msg: Message,
    other: KeyPair,
)
    requires
        in_step(x, y),
        caught_up(x, y),
        y.skipped.len() <= ratchet::MAX_SKIP,
        ratchet::can_send(x),
        x.cks is None ==> new_to(fresh, y),
        ratchet::encrypts(x, fresh, plaintext, after, msg),
        ratchet::starts_chain(y, msg.header) ==> other.valid(),
    ensures
        ({
            let (read, r) = ratchet::decrypted(y, other, msg);
            &&& r == Ok::<Seq<u8>, CryptoError>(plaintext)
            &&& in_step(after, read)
            &&& caught_up(after, read)
            &&& caught_up(y, x) ==> caught_up(read, after)
            &&& read.skipped == y.skipped
        }),
{
    law_sending_keeps_step(x, y, fresh, plaintext, after, msg);
    assert(in_window(y, msg.header));
    law_reading_keeps_step(after, y, other, msg, plaintext);
}

/// A message with this header is spent for `y`: no key is kept for it, its number lies behind on the
/// receiving chain, and it is not of the chain to which `x` is ahead.
pub open spec fn spent(x: RatchetState, y: RatchetState, header: Header) -> bool {
    &&& !y.skipped.contains_key((header.dh, header.n))
    &&& ratchet::names_current_key(y, header) ==> header.n < y.nr
    &&& chain_ahead(x, y) ==> header.dh != x.dhs->0.text()
}

/// A message that was read is spent: no key that opens it is left, nor is one to come.
pub proof fn law_read_message_is_spent(
    x: RatchetState,
    y: RatchetState,
    fresh: KeyPair,
    msg: Message,
    plaintext: Seq<u8>,
)
    requires
        in_step(x, y),
        outstanding(x, y, msg, plaintext),
        ratchet::decrypted(y, fresh, msg).1 is Ok,
    ensures
        spent(x, ratchet::decrypted(y, fresh, msg).0, msg.header),
        key_for(x, ratchet::decrypted(y, fresh, msg).0, msg.header) is None,
{
    let n = msg.header.n as nat;
    let place = (msg.header.dh, msg.header.n);
    let after = ratchet::decrypted(y, fresh, msg).0;
    if y.skipped.contains_key(place) {
    } else if ratchet::names_current_key(y, msg.header) {
        lemma_passing_each(y, n);
        assert(!ratchet::skipped_to(y, n).0.skipped.contains_key(place));
    } else {
        lemma_passing_each(y, x.pn);
        let t = ratchet::skipped_to(y, x.pn).0;
        let u = ratchet::ratcheted_by_receiving(t, x.dhs->0.public, fresh).0;
        assert(!t.skipped.contains_key(place));
        lemma_passing_each(u, n);
        assert(!ratchet::skipped_to(u, n).0.skipped.contains_key(place));
    }
}

/// A spent message stays spent when either side sends, as long as the key that is drawn for a new
/// chain is new, also to the chain of the message.
pub proof fn law_spent_survives_sending(
    x: RatchetState,
    y: RatchetState,
    fresh: KeyPair,
    plaintext: Seq<u8>,
    after: RatchetState,
    msg: Message,
    header: Header,
)
    requires
        in_step(x, y),
    ensures
        spent(x, y, header) && ratchet::encrypts(x, fresh, plaintext, after, msg) && (x.cks is None
            ==> new_to(fresh, y) && fresh.text() != header.dh) ==> spent(after, y, header),
        spent(x, y, header) && ratchet::encrypts(y, fresh, plaintext, after, msg) && (y.cks is None
            ==> new_to(fresh, x)) ==> spent(x, after, header),
{
}

/// A spent message stays spent when either side reads another, as long as the key that is drawn for
/// a new chain is new, also to the chain of the message.
pub proof fn law_spent_survives_reading(
    x: RatchetState,
    y: RatchetState,
    fresh: KeyPair,
    msg: Message,
    plaintext: Seq<u8>,
    header: Header,
)
    requires
        in_step(x, y),
        spent(x, y, header),
        fresh.valid(),
    ensures
        outstanding(x, y, msg, plaintext) && in_window(y, msg.header) && new_to(fresh, x) ==> spent(
            x,
            ratchet::decrypted(y, fresh, msg).0,
            header,
        ),
        outstanding(y, x, msg, plaintext) && in_window(x, msg.header) && new_to(fresh, y)
            && fresh.text() != header.dh ==> spent(
            ratchet::decrypted(x, fresh, msg).0,
            y,
            header,
        ),
{
    let n = msg.header.n as nat;
    let place = (header.dh, header.n);
    if outstanding(x, y, msg, plaintext) && in_window(y, msg.header) && new_to(fresh, x) {
        law_reading_keeps_step(x, y, fresh, msg, plaintext);
        if y.skipped.contains_key((msg.header.dh, msg.header.n)) {
        } else if ratchet::names_current_key(y, msg.header) {
            lemma_passing(y, n);
            assert(!ratchet::skipped_to(y, n).0.skipped.contains_key(place));
        } else {
            lemma_passing(y, x.pn);
            let t = ratchet::skipped_to(y, x.pn).0;
            let u = ratchet::ratcheted_by_receiving(t, x.dhs->0.public, fresh).0;
            assert(!t.skipped.contains_key(place));
            lemma_passing(u, n);
            assert(!ratchet::skipped_to(u, n).0.skipped.contains_key(place));
        }
    }
    if outstanding(y, x, msg, plaintext) && in_window(x, msg.header) && new_to(fresh, y)
        && fresh.text() != header.dh {
        law_reading_keeps_step(y, x, fresh, msg, plaintext);
        if x.skipped.contains_key((msg.header.dh, msg.header.n)) {
        } else if ratchet::names_current_key(x, msg.header) {
            lemma_passing(x, n);
        } else {
            lemma_passing(x, y.pn);
            let t = ratchet::skipped_to(x, y.pn).0;
            let u = ratchet::ratcheted_by_receiving(t, y.dhs->0.public, fresh).0;
            lemma_passing(u, n);
        }
    }
}

/// How many messages of the chain that `y` receives on `x` has sent and `y` has not read.
pub open spec fn behind(x: RatchetState, y: RatchetState) -> int {
    chain_length(x, y) - y.nr
}

/// The messages that `x` has sent and `y` has not read, in the order in which they were sent, with
/// what they hold: those of the chain that `y` receives on, and then those of the chain to which `x`
/// is ahead.
pub open spec fn backlog(
    x: RatchetState,
    y: RatchetState,
    msgs: Seq<Message>,
    texts: Seq<Seq<u8>>,
) -> bool {
    &&& in_step(x, y)
    &&& y.skipped.len() <= ratchet::MAX_SKIP
    &&& behind(x, y) >= 0
    &&& msgs.len() == texts.len()
    &&& msgs.len() == behind(x, y) + if chain_ahead(x, y) {
        x.ns
    } else {
        0
    }
    &&& forall|k: int|
        #![trigger msgs[k]]
        0 <= k < msgs.len() ==> {
            let header = msgs[k].header;
            &&& outstanding(x, y, msgs[k], texts[k])
            &&& if k < behind(x, y) {
                ratchet::names_current_key(y, header) && header.n == y.nr + k
            } else {
                header.dh == x.dhs->0.text() && header.pn == x.pn && header.n == k - behind(x, y)
            }
        }
}

/// Where all was read, nothing is behind.
pub proof fn lemma_caught_up_has_no_backlog(x: RatchetState, y: RatchetState)
    requires
        in_step(x, y),
        caught_up(x, y),
        y.skipped.len() <= ratchet::MAX_SKIP,
    ensures
        backlog(x, y, Seq::empty(), Seq::empty()),
{
}

/// A message that is sent comes to the end of what is behind.
pub proof fn law_sending_extends_backlog(
    x: RatchetState,
    y: RatchetState,
    fresh: KeyPair,
    plaintext: Seq<u8>,
    after: RatchetState,
    msg: Message,
    msgs: Seq<Message>,
    texts: Seq<Seq<u8>>,
)
    requires
        backlog(x, y, msgs, texts),
        ratchet::can_send(x),
        x.cks is None ==> new_to(fresh, y),
        ratchet::encrypts(x, fresh, plaintext, after, msg),
    ensures
        backlog(after, y, msgs.push(msg), texts.push(plaintext)),
{
    law_sending_keeps_step(x, y, fresh, plaintext, after, msg);
    let all = msgs.push(msg);
    assert forall|k: int| #![trigger all[k]] 0 <= k < all.len() implies {
        let header = all[k].header;
        &&& outstanding(after, y, all[k], texts.push(plaintext)[k])
        &&& if k < behind(after, y) {
            ratchet::names_current_key(y, header) && header.n == y.nr + k
        } else {
            header.dh == after.dhs->0.text() && header.pn == after.pn && header.n == k - behind(
                after,
                y,
            )
        }
    } by {
        if k < msgs.len() {
            assert(all[k] == msgs[k]);
            assert(outstanding(x, y, msgs[k], texts[k]));
        }
    }
}

/// The first message that is behind is read, and the others stay behind. No key is kept for it.
pub proof fn law_reading_shortens_backlog(
    x: RatchetState,
    y: RatchetState,
    fresh: KeyPair,
    msgs: Seq<Message>,
    texts: Seq<Seq<u8>>,
)
    requires
        backlog(x, y, msgs, texts),
        msgs.len() > 0,
        ratchet::starts_chain(y, msgs[0].header) ==> fresh.valid(),
    ensures
        ratchet::decrypted(y, fresh, msgs[0]).1 == Ok::<Seq<u8>, CryptoError>(texts[0]),
        backlog(x, ratchet::decrypted(y, fresh, msgs[0]).0, msgs.skip(1), texts.skip(1)),
        ratchet::decrypted(y, fresh, msgs[0]).0.skipped == y.skipped,
{
    let msg = msgs[0];
    let read = ratchet::decrypted(y, fresh, msg).0;
    assert(outstanding(x, y, msg, texts[0]));
    assert(in_window(y, msg.header));
    law_reading_keeps_step(x, y, fresh, msg, texts[0]);
    let rest = msgs.skip(1);
    assert forall|k: int| #![trigger rest[k]] 0 <= k < rest.len() implies {
        let header = rest[k].header;
        &&& outstanding(x, read, rest[k], texts.skip(1)[k])
        &&& if k < behind(x, read) {
            ratchet::names_current_key(read, header) && header.n == read.nr + k
        } else {
            header.dh == x.dhs->0.text() && header.pn == x.pn && header.n == k - behind(x, read)
        }
    } by {
        assert(rest[k] == msgs[k + 1]);
        assert(outstanding(x, y, msgs[k + 1], texts[k + 1]));
        assert(apart(msgs[k + 1], msg));
    }
}

/// What is behind stays behind when the side that has sent it reads, and when the other side sends.
pub proof fn law_backlog_survives(
    x: RatchetState,
    y: RatchetState,
    fresh: KeyPair,
    msg: Message,
    plaintext: Seq<u8>,
    after: RatchetState,
    msgs: Seq<Message>,
    texts: Seq<Seq<u8>>,
)
    requires
        backlog(x, y, msgs, texts),
    ensures
        outstanding(y, x, msg, plaintext) && in_window(x, msg.header) && (ratchet::starts_chain(
            x,
            msg.header,
        ) ==> fresh.valid()) ==> backlog(
            ratchet::decrypted(x, fresh, msg).0,
            y,
            msgs,
            texts,
        ),
        ratchet::encrypts(y, fresh, plaintext, after, msg) && ratchet::can_send(y) && (y.cks is None
            ==> new_to(fresh, x)) ==> backlog(x, after, msgs, texts),
{
    if outstanding(y, x, msg, plaintext) && in_window(x, msg.header) && (ratchet::starts_chain(
        x,
        msg.header,
    ) ==> fresh.valid()) {
        let read = ratchet::decrypted(x, fresh, msg).0;
        if ratchet::new_key(x, fresh) {
            lemma_new_key_is_new_to_the_other(x, y, fresh);
        }
        let n = msg.header.n as nat;
        law_reading_keeps_step(y, x, fresh, msg, plaintext);
        if x.skipped.contains_key((msg.header.dh, msg.header.n)) {
        } else if ratchet::names_current_key(x, msg.header) {
            lemma_passing(x, n);
        } else {
            lemma_passing(x, y.pn);
            let t = ratchet::skipped_to(x, y.pn).0;
            let u = ratchet::ratcheted_by_receiving(t, y.dhs->0.public, fresh).0;
            lemma_passing(u, n);
        }
        assert forall|k: int| 0 <= k < msgs.len() implies outstanding(
            read,
            y,
            #[trigger] msgs[k],
            texts[k],
        ) by {
            assert(outstanding(x, y, msgs[k], texts[k]));
        }
    }
    if ratchet::encrypts(y, fresh, plaintext, after, msg) && ratchet::can_send(y) && (y.cks is None
        ==> new_to(fresh, x)) {
        law_sending_keeps_step(y, x, fresh, plaintext, after, msg);
        assert forall|k: int| 0 <= k < msgs.len() implies outstanding(
            x,
            after,
            #[trigger] msgs[k],
            texts[k],
        ) by {
            assert(outstanding(x, y, msgs[k], texts[k]));
        }
    }
}

} // verus!
