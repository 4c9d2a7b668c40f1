//! The double ratchet of a session.
use crate::crypto::aead;
use crate::crypto::aead::{EncryptedPayload, SealedPayload, NONCE_LEN};
use crate::crypto::error::CryptoError;
use crate::crypto::kdf;
use crate::crypto::keys;
use crate::crypto::keys::{Identity, KeyPair, PublicKey, KEY_LEN};
use crate::crypto::primitives;
use crate::crypto::skipped::SkippedKeys;
use crate::text;
use vstd::prelude::*;
use vstd::string::*;
use vstd::utf8::*;

verus! {

/// How many messages may be passed over, and how many message keys are kept for them.
pub const MAX_SKIP: u32 = 64;

/// What stands in clear beside a sealed message: the sender's current key, how many messages the
/// sender's chain before this one had, and the number of the message in its chain.
#[derive(Debug, Clone, PartialEq, Eq)]
pub struct RatchetHeader {
    pub dh_public_b64: String,
    pub pn: u32,
    pub n: u32,
}

/// A header in the abstract.
pub struct Header {
    pub dh: Seq<char>,
    pub pn: u32,
    pub n: u32,
}

impl View for RatchetHeader {
    type V = Header;

    open spec fn view(&self) -> Header {
        Header { dh: self.dh_public_b64@, pn: self.pn, n: self.n }
    }
}

/// A message of a session as it is sent.
#[derive(Debug, Clone, PartialEq, Eq)]
pub struct RatchetMessage {
    pub header: RatchetHeader,
    pub payload: EncryptedPayload,
}

/// A message in the abstract.
pub struct Message {
    pub header: Header,
    pub payload: SealedPayload,
}

impl View for RatchetMessage {
    type V = Message;

    open spec fn view(&self) -> Message {
        Message { header: self.header@, payload: self.payload@ }
    }
}

/// The text that binds a header to its payload.
pub open spec fn header_text(header: Header) -> Seq<char> {
    "hdr-v1|"@ + header.dh + "|"@ + text::decimal(header.pn as nat) + "|"@ + text::decimal(
        header.n as nat,
    )
}

/// The associated data of a message with this header.
pub open spec fn header_bytes(header: Header) -> Seq<u8> {
    encode_utf8(header_text(header))
}

/// Where the sender's key is spelled as a public key is, the associated data is short.
proof fn lemma_header_len(header: Header)
    requires
        keys::spelled(header.dh),
    ensures
        header_bytes(header).len() <= 80,
{
    reveal_strlit("hdr-v1|");
    reveal_strlit("|");
    assert(vstd::arithmetic::power::pow(10, 10) == 10_000_000_000) by {
        reveal_with_fuel(vstd::arithmetic::power::pow, 11);
    }
    text::lemma_decimal_len(header.pn as nat, 10);
    text::lemma_decimal_len(header.n as nat, 10);
    assert(is_ascii_chars(header_text(header)));
    keys::lemma_ascii_len(header_text(header));
}

/// Two headers never share their associated data.
pub proof fn law_headers_are_told_apart(a: Header, b: Header)
    requires
        header_bytes(a) == header_bytes(b),
    ensures
        a == b,
{
    reveal_strlit("hdr-v1|");
    reveal_strlit("|");
    encode_utf8_decode_utf8(header_text(a));
    encode_utf8_decode_utf8(header_text(b));
    lemma_counts_have_no_bar(a);
    lemma_counts_have_no_bar(b);
    let (an, bn) = (text::decimal(a.n as nat), text::decimal(b.n as nat));
    let (ap, bp) = (text::decimal(a.pn as nat), text::decimal(b.pn as nat));
    let (ak, bk) = ("hdr-v1|"@ + a.dh, "hdr-v1|"@ + b.dh);
    assert(header_text(a) =~= (ak.push('|') + ap).push('|') + an);
    assert(header_text(b) =~= (bk.push('|') + bp).push('|') + bn);
    text::lemma_split_at_last(ak.push('|') + ap, an, bk.push('|') + bp, bn, '|');
    text::lemma_split_at_last(ak, ap, bk, bp, '|');
    assert(a.dh =~= ak.skip(7));
    assert(b.dh =~= bk.skip(7));
    text::lemma_decimal_injective(a.n as nat, b.n as nat);
    text::lemma_decimal_injective(a.pn as nat, b.pn as nat);
}

proof fn lemma_counts_have_no_bar(header: Header)
    ensures
        !text::decimal(header.n as nat).contains('|'),
        !text::decimal(header.pn as nat).contains('|'),
{
    assert(vstd::arithmetic::power::pow(10, 10) == 10_000_000_000) by {
        reveal_with_fuel(vstd::arithmetic::power::pow, 11);
    }
    text::lemma_decimal_len(header.n as nat, 10);
    text::lemma_decimal_len(header.pn as nat, 10);
}

/// The associated data that binds a header to its payload.
pub fn header_aad(header: &RatchetHeader) -> (aad: Vec<u8>)
    ensures
        aad@ == header_bytes(header@),
{
    let mut s = "hdr-v1|".to_owned();
    s.append(header.dh_public_b64.as_str());
    s.append("|");
    text::push_decimal(&mut s, header.pn);
    s.append("|");
    text::push_decimal(&mut s, header.n);
    s.as_str().as_bytes_vec()
}

/// The state of a ratchet in the abstract.
///
/// `dhs` is the own key pair, `dhr` the other's public key; `rk` is the root key, `cks` and `ckr`
/// are the chain keys for sending and receiving; `ns` and `nr` count the messages of those chains,
/// `pn` those of the sending chain before; `skipped` holds the keys of messages passed over, and
/// `used` the own public keys of earlier chains.
#[verifier::ext_equal]
pub struct RatchetState {
    pub dhs: Option<KeyPair>,
    pub used: Seq<Seq<char>>,
    pub dhr: Option<Seq<u8>>,
    pub rk: Seq<u8>,
    pub cks: Option<Seq<u8>>,
    pub ckr: Option<Seq<u8>>,
    pub ns: nat,
    pub nr: nat,
    pub pn: nat,
    pub skipped: Map<(Seq<char>, u32), Seq<u8>>,
}

impl RatchetState {
    /// The own key pair is a key pair, the counts are in range, and the keys kept are finitely many.
    pub open spec fn valid(self) -> bool {
        &&& self.dhs matches Some(k) ==> k.valid()
        &&& self.ns <= u32::MAX
        &&& self.nr <= u32::MAX
        &&& self.pn <= u32::MAX
        &&& self.skipped.dom().finite()
    }
}

/// Whether a key was never one of the own keys of a ratchet.
pub open spec fn new_key(s: RatchetState, key: KeyPair) -> bool {
    !s.used.contains(key.text()) && (s.dhs matches Some(dhs) ==> dhs.text() != key.text())
}

/// What a key that is drawn for a new chain looks like: it was never one of the own keys and is not
/// the key named `avoided`; or it is the current key, where no such key came.
pub open spec fn drawn_key(s: RatchetState, avoided: Seq<char>, key: KeyPair) -> bool {
    s.dhs matches Some(dhs) ==> (new_key(s, key) && key.text() != avoided) || key == dhs
}

/// The own keys of earlier chains, once the current one is followed by another.
pub open spec fn used_up(s: RatchetState) -> Seq<Seq<char>> {
    match s.dhs {
        Some(dhs) => s.used.push(dhs.text()),
        None => s.used,
    }
}

/// Passes over the next message of the receiving chain, keeping its key.
pub open spec fn passed_one(s: RatchetState) -> RatchetState {
    RatchetState {
        ckr: Some(kdf::next_chain_key(s.ckr->0)),
        nr: s.nr + 1,
        skipped: s.skipped.insert(
            (keys::key_text(s.dhr->0), s.nr as u32),
            kdf::message_key(s.ckr->0),
        ),
        ..s
    }
}

/// Passes over the messages before number `until` of the receiving chain, keeping their keys.
pub open spec fn skipped_each(s: RatchetState, until: nat) -> (RatchetState, Result<(), CryptoError>)
    decreases until - s.nr,
{
    if s.nr >= until {
        (s, Ok(()))
    } else {
        match s.dhr {
            None => (s, Err(CryptoError::Ratchet("missing remote DH for skip"))),
            Some(_) => match s.ckr {
                None => (s, Err(CryptoError::Ratchet("missing recv chain for skip"))),
                Some(_) => {
                    let t = passed_one(s);
                    if t.skipped.len() > MAX_SKIP {
                        (t, Err(CryptoError::SkippedKeysOverflow))
                    } else {
                        skipped_each(t, until)
                    }
                },
            },
        }
    }
}

/// Passes over the messages before number `until`, unless they are too many.
pub open spec fn skipped_to(s: RatchetState, until: nat) -> (RatchetState, Result<(), CryptoError>) {
    if s.nr + MAX_SKIP < until {
        (s, Err(CryptoError::SkippedKeysOverflow))
    } else {
        skipped_each(s, until)
    }
}

/// Passing messages over counts them: up to the one asked for where it succeeds, and never beyond.
pub proof fn lemma_skipped_count(s: RatchetState, until: nat)
    ensures
        skipped_to(s, until).1 is Ok ==> skipped_to(s, until).0.nr == if s.nr < until {
            until
        } else {
            s.nr
        },
        s.nr <= skipped_to(s, until).0.nr,
        skipped_to(s, until).0.nr <= s.nr || skipped_to(s, until).0.nr <= until,
{
    lemma_skipped_each_count(s, until);
}

proof fn lemma_skipped_each_count(s: RatchetState, until: nat)
    ensures
        skipped_each(s, until).1 is Ok ==> skipped_each(s, until).0.nr == if s.nr < until {
            until
        } else {
            s.nr
        },
        s.nr <= skipped_each(s, until).0.nr,
        skipped_each(s, until).0.nr <= s.nr || skipped_each(s, until).0.nr <= until,
    decreases until - s.nr,
{
    if s.nr < until && s.dhr is Some && s.ckr is Some {
        lemma_skipped_each_count(passed_one(s), until);
    }
}

/// Passing messages over leaves the keys of both sides and the root alone, and the receiving chain a
/// chain.
pub proof fn lemma_skipped_keeps_keys(s: RatchetState, until: nat)
    ensures
        skipped_each(s, until).0.dhs == s.dhs,
        skipped_each(s, until).0.dhr == s.dhr,
        skipped_each(s, until).0.rk == s.rk,
        skipped_each(s, until).0.used == s.used,
        skipped_each(s, until).0.ckr is Some <==> s.ckr is Some,
    decreases until - s.nr,
{
    if s.nr < until && s.dhr is Some && s.ckr is Some {
        lemma_skipped_keeps_keys(passed_one(s), until);
    }
}

/// Starts a receiving chain with the key the other has sent, and a sending chain with a new key. A
/// key that was one of the own keys before is not taken: the sending chain goes on instead.
pub open spec fn ratcheted_by_receiving(s: RatchetState, remote: Seq<u8>, fresh: KeyPair) -> (
    RatchetState,
    Result<(), CryptoError>,
) {
    let t = RatchetState { pn: s.ns, ns: 0, nr: 0, dhr: Some(remote), ..s };
    match s.dhs {
        None => (t, Err(CryptoError::Ratchet("missing local DH for recv ratchet"))),
        Some(dhs) => {
            let received = dhs.shared(remote);
            let rk = kdf::next_root_key(s.rk, received);
            let ckr = Some(kdf::first_chain_key(s.rk, received));
            let sent = fresh.shared(remote);
            (
                if new_key(s, fresh) {
                    RatchetState {
                        dhs: Some(fresh),
                        used: used_up(s),
                        rk: kdf::next_root_key(rk, sent),
                        ckr,
                        cks: Some(kdf::first_chain_key(rk, sent)),
                        ..t
                    }
                } else {
                    RatchetState { nr: 0, dhr: Some(remote), rk, ckr, ..s }
                },
                Ok(()),
            )
        },
    }
}

/// Starts a sending chain with a new key.
pub open spec fn ratcheted_by_sending(s: RatchetState, fresh: KeyPair) -> (
    RatchetState,
    Result<(), CryptoError>,
) {
    match s.dhr {
        None => (s, Err(CryptoError::Ratchet("missing remote DH for send ratchet"))),
        Some(remote) => {
            let sent = fresh.shared(remote);
            (
                RatchetState {
                    dhs: Some(fresh),
                    used: used_up(s),
                    rk: kdf::next_root_key(s.rk, sent),
                    cks: Some(kdf::first_chain_key(s.rk, sent)),
                    pn: s.ns,
                    ns: 0,
                    ..s
                },
                Ok(()),
            )
        },
    }
}

/// The header of the next message.
pub open spec fn next_header(s: RatchetState) -> Header {
    Header { dh: s.dhs->0.text(), pn: s.pn as u32, n: s.ns as u32 }
}

/// Seals the next message of the sending chain.
pub open spec fn sent_next(s: RatchetState, nonce: Seq<u8>, plaintext: Seq<u8>) -> (
    RatchetState,
    Result<Message, CryptoError>,
) {
    match s.dhs {
        None => (s, Err(CryptoError::Ratchet("missing local DH"))),
        Some(dhs) => match s.cks {
            None => (s, Err(CryptoError::Ratchet("missing send chain"))),
            Some(ck) => {
                let header = next_header(s);
                (
                    RatchetState { cks: Some(kdf::next_chain_key(ck)), ns: s.ns + 1, ..s },
                    match aead::sealed(
                        kdf::message_key(ck),
                        nonce,
                        plaintext,
                        header_bytes(header),
                    ) {
                        Ok(payload) => Ok(Message { header, payload }),
                        Err(e) => Err(e),
                    },
                )
            },
        },
    }
}

/// What encrypting a plaintext does, given the key pair drawn for a new chain (used only where
/// there is no sending chain) and the nonce drawn for the payload.
pub open spec fn encrypted(s: RatchetState, fresh: KeyPair, nonce: Seq<u8>, plaintext: Seq<u8>) -> (
    RatchetState,
    Result<Message, CryptoError>,
) {
    if s.cks is None {
        match ratcheted_by_sending(s, fresh) {
            (t, Ok(_)) => sent_next(t, nonce, plaintext),
            (t, Err(e)) => (t, Err(e)),
        }
    } else {
        sent_next(s, nonce, plaintext)
    }
}

/// A ratchet that can send seals a message that is not too long for the cipher.
pub proof fn lemma_short_message_is_sealed(
    s: RatchetState,
    fresh: KeyPair,
    nonce: Seq<u8>,
    plaintext: Seq<u8>,
)
    requires
        s.dhr is Some,
        s.dhs is Some,
        keys::spelled(s.dhs->0.text()),
        keys::spelled(fresh.text()),
        plaintext.len() <= 65536,
    ensures
        encrypted(s, fresh, nonce, plaintext).1 is Ok,
{
    lemma_header_len(next_header(ready(s, fresh)));
}

/// Opens a message of the receiving chain.
pub open spec fn received_next(s: RatchetState, msg: Message) -> (
    RatchetState,
    Result<Seq<u8>, CryptoError>,
) {
    match skipped_to(s, msg.header.n as nat) {
        (t, Err(e)) => (t, Err(e)),
        (t, Ok(_)) => match t.ckr {
            None => (t, Err(CryptoError::Ratchet("missing recv chain"))),
            Some(ck) => (
                RatchetState { ckr: Some(kdf::next_chain_key(ck)), nr: t.nr + 1, ..t },
                aead::opened(kdf::message_key(ck), msg.payload, header_bytes(msg.header)),
            ),
        },
    }
}

/// Whether a header names the key that the receiving chain belongs to.
pub open spec fn names_current_key(s: RatchetState, header: Header) -> bool {
    s.dhr matches Some(dhr) && keys::key_text(dhr) == header.dh
}

/// Whether a message starts a new receiving chain: no key was kept for it, and it names a public
/// key that is not the current one.
pub open spec fn starts_chain(s: RatchetState, header: Header) -> bool {
    &&& !s.skipped.contains_key((header.dh, header.n))
    &&& keys::parse_key(header.dh) is Ok
    &&& !names_current_key(s, header)
}

/// What decrypting a message does, given the key pair drawn for a new chain (used only where the
/// message starts one).
pub open spec fn decrypted(s: RatchetState, fresh: KeyPair, msg: Message) -> (
    RatchetState,
    Result<Seq<u8>, CryptoError>,
) {
    let place = (msg.header.dh, msg.header.n);
    if s.skipped.contains_key(place) {
        (
            RatchetState { skipped: s.skipped.remove(place), ..s },
            aead::opened(s.skipped[place], msg.payload, header_bytes(msg.header)),
        )
    } else {
        match keys::parse_key(msg.header.dh) {
            Err(e) => (s, Err(e)),
            Ok(remote) => if names_current_key(s, msg.header) {
                received_next(s, msg)
            } else {
                match skipped_to(s, msg.header.pn as nat) {
                    (t, Err(e)) => (t, Err(e)),
                    (t, Ok(_)) => match ratcheted_by_receiving(t, remote, fresh) {
                        (u, Err(e)) => (u, Err(e)),
                        (u, Ok(_)) => received_next(u, msg),
                    },
                }
            },
        }
    }
}

/// Passing messages over looks at nothing but the receiving side.
proof fn lemma_skipped_by_receiving_side(s: RatchetState, t: RatchetState, until: nat)
    requires
        s.dhr == t.dhr,
        s.ckr == t.ckr,
        s.nr == t.nr,
        s.skipped == t.skipped,
    ensures
        skipped_each(s, until).1 == skipped_each(t, until).1,
        skipped_each(s, until).0.ckr == skipped_each(t, until).0.ckr,
    decreases until - s.nr,
{
    if s.nr < until && s.dhr is Some && s.ckr is Some {
        lemma_skipped_by_receiving_side(passed_one(s), passed_one(t), until);
    }
}

/// What a message decrypts to, or why it does not, has nothing to do with the key that is drawn
/// for the next chain.
pub proof fn law_plaintext_is_not_drawn(s: RatchetState, fresh: KeyPair, other: KeyPair, msg: Message)
    ensures
        decrypted(s, fresh, msg).1 == decrypted(s, other, msg).1,
{
    let t = skipped_to(s, msg.header.pn as nat).0;
    if keys::parse_key(msg.header.dh) is Ok {
        let remote = keys::parse_key(msg.header.dh)->Ok_0;
        lemma_skipped_by_receiving_side(
            ratcheted_by_receiving(t, remote, fresh).0,
            ratcheted_by_receiving(t, remote, other).0,
            msg.header.n as nat,
        );
    }
}

/// The own keys of a ratchet, those of earlier chains and the current one, are all different.
pub open spec fn keys_differ(s: RatchetState) -> bool {
    s.used.no_duplicates() && (s.dhs matches Some(dhs) ==> !s.used.contains(dhs.text()))
}

/// A key that follows another is none that was used before, whatever message is received and whatever
/// key is drawn: the keys stay all different, and those of earlier chains stay known.
pub proof fn law_chain_keys_are_not_used_again(s: RatchetState, fresh: KeyPair, msg: Message)
    requires
        keys_differ(s),
    ensures
        ({
            let t = decrypted(s, fresh, msg).0;
            &&& keys_differ(t)
            &&& s.used.is_prefix_of(t.used)
            &&& t.dhs != s.dhs ==> t.dhs == Some(fresh) && s.dhs is Some && t.used == s.used.push(
                s.dhs->0.text(),
            ) && fresh.text() != s.dhs->0.text() && !s.used.contains(fresh.text())
        }),
{
    lemma_skipped_keeps_keys(s, msg.header.n as nat);
    lemma_skipped_keeps_keys(s, msg.header.pn as nat);
    let t = skipped_to(s, msg.header.pn as nat).0;
    if keys::parse_key(msg.header.dh) is Ok {
        let u = ratcheted_by_receiving(t, keys::parse_key(msg.header.dh)->Ok_0, fresh).0;
        lemma_skipped_keeps_keys(u, msg.header.n as nat);
        lemma_used_up(s, fresh);
    }
    assert(s.used.is_prefix_of(s.used));
}

/// A chain that is started by sending gets a key that was not used before, if a new one was drawn.
pub proof fn law_sending_uses_a_new_key(
    s: RatchetState,
    fresh: KeyPair,
    nonce: Seq<u8>,
    plaintext: Seq<u8>,
)
    requires
        keys_differ(s),
        s.cks is None ==> new_key(s, fresh),
    ensures
        keys_differ(encrypted(s, fresh, nonce, plaintext).0),
        s.used.is_prefix_of(encrypted(s, fresh, nonce, plaintext).0.used),
{
    lemma_used_up(s, fresh);
    assert(s.used.is_prefix_of(s.used));
}

proof fn lemma_used_up(s: RatchetState, fresh: KeyPair)
    requires
        keys_differ(s),
    ensures
        s.used.is_prefix_of(used_up(s)),
        used_up(s).no_duplicates(),
        new_key(s, fresh) ==> !used_up(s).contains(fresh.text()),
{
    let u = used_up(s);
    assert(u.take(s.used.len() as int) =~= s.used);
    assert forall|i: int, j: int| 0 <= i < u.len() && 0 <= j < u.len() && i != j implies u[i]
        != u[j] by {
        if i == s.used.len() {
            assert(s.used.contains(s.used[j]));
        } else if j == s.used.len() {
            assert(s.used.contains(s.used[i]));
        }
    }
    if new_key(s, fresh) && u.contains(fresh.text()) {
        let i = u.index_of(fresh.text());
        if i < s.used.len() {
            assert(s.used[i] == fresh.text());
        }
    }
}

/// What a message decrypts to, or why it does not, whatever key is drawn for the next chain.
pub open spec fn plaintext_of(s: RatchetState, msg: Message) -> Result<Seq<u8>, CryptoError> {
    decrypted(s, KeyPair { secret: Seq::empty(), public: Seq::empty() }, msg).1
}

/// Passing messages over keeps no more keys than the window has room for, and one more where it
/// fails.
proof fn lemma_skipped_keeps_window(s: RatchetState, until: nat)
    requires
        s.skipped.dom().finite(),
        s.skipped.len() <= MAX_SKIP,
    ensures
        skipped_each(s, until).0.skipped.dom().finite(),
        skipped_each(s, until).0.skipped.len() <= MAX_SKIP + 1,
        skipped_each(s, until).1 is Ok ==> skipped_each(s, until).0.skipped.len() <= MAX_SKIP,
    decreases until - s.nr,
{
    if s.nr < until && s.dhr is Some && s.ckr is Some {
        let place = (keys::key_text(s.dhr->0), s.nr as u32);
        let t = passed_one(s);
        assert(t.skipped.dom() =~= s.skipped.dom().insert(place));
        if t.skipped.len() <= MAX_SKIP {
            lemma_skipped_keeps_window(t, until);
        }
    }
}

/// A ratchet keeps no more keys of messages passed over than the window has room for, as long as
/// the messages it is given can be decrypted.
pub proof fn law_kept_keys_fit_the_window(s: RatchetState, fresh: KeyPair, msg: Message)
    requires
        s.valid(),
        s.skipped.len() <= MAX_SKIP,
        decrypted(s, fresh, msg).1 is Ok,
    ensures
        decrypted(s, fresh, msg).0.skipped.len() <= MAX_SKIP,
{
    let place = (msg.header.dh, msg.header.n);
    if s.skipped.contains_key(place) {
        assert(s.skipped.remove(place).dom() =~= s.skipped.dom().remove(place));
    } else if names_current_key(s, msg.header) {
        lemma_skipped_keeps_window(s, msg.header.n as nat);
    } else {
        lemma_skipped_keeps_window(s, msg.header.pn as nat);
        let t = skipped_to(s, msg.header.pn as nat).0;
        let u = ratcheted_by_receiving(t, keys::parse_key(msg.header.dh)->Ok_0, fresh).0;
        lemma_skipped_keeps_window(u, msg.header.n as nat);
    }
}

/// Decrypting leaves keys on both sides where there were keys.
pub proof fn lemma_decrypted_keeps_keys(s: RatchetState, fresh: KeyPair, msg: Message)
    requires
        s.dhs is Some,
        s.dhr is Some,
    ensures
        decrypted(s, fresh, msg).0.dhs is Some,
        decrypted(s, fresh, msg).0.dhr is Some,
{
    lemma_skipped_keeps_keys(s, msg.header.n as nat);
    lemma_skipped_keeps_keys(s, msg.header.pn as nat);
    let t = skipped_to(s, msg.header.pn as nat).0;
    if keys::parse_key(msg.header.dh) is Ok {
        let u = ratcheted_by_receiving(t, keys::parse_key(msg.header.dh)->Ok_0, fresh).0;
        lemma_skipped_keeps_keys(u, msg.header.n as nat);
    }
}

/// Whether the count of sent messages has room for one more, if there is a chain to count on.
pub open spec fn can_send(s: RatchetState) -> bool {
    s.cks is None || s.dhs is None || s.ns < u32::MAX
}

/// Whether the count of received messages has room for number `n` of the receiving chain, if that
/// message comes to be counted.
pub open spec fn has_room(s: RatchetState, n: nat) -> bool {
    match skipped_to(s, n) {
        (t, Ok(_)) => t.ckr is None || t.nr < u32::MAX,
        (_, Err(_)) => true,
    }
}

/// Whether the count of received messages has room for this message. One that a key was kept for is
/// not counted, and one that starts a chain is counted anew.
pub open spec fn can_receive(s: RatchetState, header: Header) -> bool {
    ||| s.skipped.contains_key((header.dh, header.n))
    ||| keys::parse_key(header.dh) is Err
    ||| !names_current_key(s, header)
    ||| has_room(s, header.n as nat)
}

/// The count has room for a message exactly where decrypting the message leaves it in range.
pub proof fn law_room_is_exact(s: RatchetState, fresh: KeyPair, msg: Message)
    requires
        s.valid(),
    ensures
        can_receive(s, msg.header) <==> decrypted(s, fresh, msg).0.nr <= u32::MAX,
{
    lemma_skipped_count(s, msg.header.n as nat);
    lemma_skipped_count(s, msg.header.pn as nat);
    let t = skipped_to(s, msg.header.pn as nat).0;
    if keys::parse_key(msg.header.dh) is Ok {
        let u = ratcheted_by_receiving(t, keys::parse_key(msg.header.dh)->Ok_0, fresh).0;
        lemma_skipped_count(u, msg.header.n as nat);
    }
}

/// The side of a ratchet that sending moves.
#[verifier::ext_equal]
pub struct SendSide {
    pub dhs: Option<KeyPair>,
    pub used: Seq<Seq<char>>,
    pub rk: Seq<u8>,
    pub cks: Option<Seq<u8>>,
    pub ns: nat,
    pub pn: nat,
}

/// The side of a ratchet that sending moves, as it stands.
pub open spec fn send_side(s: RatchetState) -> SendSide {
    SendSide { dhs: s.dhs, used: s.used, rk: s.rk, cks: s.cks, ns: s.ns, pn: s.pn }
}

/// Goes back to before a message was sealed: the chain gives out its number and its key again. It
/// goes back only where nothing has moved the sending chain since.
pub open spec fn unsent(s: RatchetState, before: SendSide, after: SendSide) -> RatchetState {
    if before.dhs is Some && s.cks == after.cks && s.ns == after.ns {
        RatchetState {
            dhs: before.dhs,
            used: before.used,
            rk: before.rk,
            cks: before.cks,
            ns: before.ns,
            pn: before.pn,
            ..s
        }
    } else {
        s
    }
}

/// Going back undoes the sealing of a message.
pub proof fn law_sealing_is_undone(
    s: RatchetState,
    fresh: KeyPair,
    nonce: Seq<u8>,
    plaintext: Seq<u8>,
)
    requires
        s.dhs is Some,
    ensures
        ({
            let t = encrypted(s, fresh, nonce, plaintext).0;
            unsent(t, send_side(s), send_side(t)) == s
        }),
{
}

/// The state in which a message is sealed: with a sending chain.
pub open spec fn ready(s: RatchetState, fresh: KeyPair) -> RatchetState {
    if s.cks is None {
        ratcheted_by_sending(s, fresh).0
    } else {
        s
    }
}

/// Whether a message sealed in state `s` can be read by who holds its message key: its header
/// holds the sender's public key, and its payload opens to the plaintext.
pub open spec fn readable(s: RatchetState, plaintext: Seq<u8>, msg: Message) -> bool {
    &&& s.dhs is Some
    &&& s.cks is Some
    &&& msg.header == next_header(s)
    &&& keys::parse_key(msg.header.dh) == Ok::<Seq<u8>, CryptoError>(s.dhs->0.public)
    &&& aead::opened(kdf::message_key(s.cks->0), msg.payload, header_bytes(msg.header)) == Ok::<
        Seq<u8>,
        CryptoError,
    >(plaintext)
}

/// Whether sending in state `s` did what `outcome` says: a message that was sent can be read, and
/// a plaintext of a length that can be sealed is sent.
pub open spec fn sent_as(
    s: RatchetState,
    plaintext: Seq<u8>,
    outcome: (RatchetState, Result<Message, CryptoError>),
    after: RatchetState,
    r: Result<RatchetMessage, CryptoError>,
) -> bool {
    &&& after == outcome.0
    &&& match r {
        Ok(msg) => outcome.1 == Ok::<Message, CryptoError>(msg@) && readable(s, plaintext, msg@)
            && aead::sealable(plaintext.len()),
        Err(e) => outcome.1 == Err::<Message, CryptoError>(e) && (s.dhs is Some && s.cks is Some
            ==> e == CryptoError::Encrypt && !aead::sealable(plaintext.len())),
    }
}

/// Whether encrypting a plaintext in state `s` makes this message and leaves the state `after`,
/// with `fresh` drawn as the key of a new chain.
pub open spec fn encrypts(
    s: RatchetState,
    fresh: KeyPair,
    plaintext: Seq<u8>,
    after: RatchetState,
    msg: Message,
) -> bool {
    &&& s.cks is None ==> fresh.valid()
    &&& exists|nonce: Seq<u8>|
        nonce.len() == 12 && #[trigger] encrypted(s, fresh, nonce, plaintext) == (
            after,
            Ok::<Message, CryptoError>(msg),
        )
    &&& readable(ready(s, fresh), plaintext, msg)
}

/// Whether receiving did what `outcome` says.
pub open spec fn received_as(
    outcome: (RatchetState, Result<Seq<u8>, CryptoError>),
    after: RatchetState,
    r: Result<Vec<u8>, CryptoError>,
) -> bool {
    &&& after == outcome.0
    &&& match r {
        Ok(plaintext) => outcome.1 == Ok::<Seq<u8>, CryptoError>(plaintext@),
        Err(e) => outcome.1 == Err::<Seq<u8>, CryptoError>(e),
    }
}

/// The ratchet of a session.
struct DoubleRatchet {
    dhs: Option<Identity>,
    used: Vec<String>,
    dhr: Option<PublicKey>,
    rk: [u8; KEY_LEN],
    cks: Option<[u8; KEY_LEN]>,
    ckr: Option<[u8; KEY_LEN]>,
    ns: u32,
    nr: u32,
    pn: u32,
    mkskipped: SkippedKeys,
}

impl View for DoubleRatchet {
    type V = RatchetState;

    closed spec fn view(&self) -> RatchetState {
        RatchetState {
            dhs: match self.dhs {
                Some(k) => Some(k@),
                None => None,
            },
            used: text::texts(self.used@),
            dhr: match self.dhr {
                Some(k) => Some(k@),
                None => None,
            },
            rk: self.rk@,
            cks: match self.cks {
                Some(k) => Some(k@),
                None => None,
            },
            ckr: match self.ckr {
                Some(k) => Some(k@),
                None => None,
            },
            ns: self.ns as nat,
            nr: self.nr as nat,
            pn: self.pn as nat,
            skipped: self.mkskipped@,
        }
    }
}

/// What a session can go back to where a message was sealed and not sent: the side of its ratchet
/// that sending moves.
pub struct SendMark {
    dhs: Option<Identity>,
    used: Vec<String>,
    rk: [u8; KEY_LEN],
    cks: Option<[u8; KEY_LEN]>,
    ns: u32,
    pn: u32,
}

impl View for SendMark {
    type V = SendSide;

    closed spec fn view(&self) -> SendSide {
        SendSide {
            dhs: match self.dhs {
                Some(k) => Some(k@),
                None => None,
            },
            used: text::texts(self.used@),
            rk: self.rk@,
            cks: match self.cks {
                Some(k) => Some(k@),
                None => None,
            },
            ns: self.ns as nat,
            pn: self.pn as nat,
        }
    }
}

/// A session with one peer.
pub struct SecureSession {
    peer_identity_b64: String,
    auth_key: [u8; KEY_LEN],
    ratchet: DoubleRatchet,
}

/// A session in the abstract.
pub struct SessionState {
    pub peer: Seq<char>,
    pub auth_key: Seq<u8>,
    pub ratchet: RatchetState,
}

impl View for SecureSession {
    type V = SessionState;

    closed spec fn view(&self) -> SessionState {
        SessionState {
            peer: self.peer_identity_b64@,
            auth_key: self.auth_key@,
            ratchet: self.ratchet@,
        }
    }
}

impl Clone for SecureSession {
    fn clone(&self) -> (r: SecureSession)
        ensures
            r@ == self@,
            self.wf() ==> r.wf(),
    {
        let r = SecureSession {
            peer_identity_b64: self.peer_identity_b64.clone(),
            auth_key: self.auth_key,
            ratchet: DoubleRatchet {
                dhs: match &self.ratchet.dhs {
                    Some(k) => Some(k.clone()),
                    None => None,
                },
                used: text::copy_texts(&self.ratchet.used),
                dhr: self.ratchet.dhr,
                rk: self.ratchet.rk,
                cks: self.ratchet.cks,
                ckr: self.ratchet.ckr,
                ns: self.ratchet.ns,
                nr: self.ratchet.nr,
                pn: self.ratchet.pn,
                mkskipped: self.ratchet.mkskipped.copy(),
            },
        };
        assert(r@.ratchet =~= self@.ratchet);
        r
    }
}

/// The label of what is sealed under the key of the session itself.
pub open spec fn auth_label() -> Seq<u8> {
    encode_utf8("session-auth-v1"@)
}

impl SecureSession {
    /// The state is a valid one, and no two message keys are kept under one place.
    pub open spec fn wf(self) -> bool {
        &&& self.store_wf()
        &&& self@.ratchet.valid()
    }

    /// No two message keys are kept under one place.
    pub closed spec fn store_wf(self) -> bool {
        self.ratchet.mkskipped.wf()
    }

    /// The session that a handshake ends in.
    pub(crate) fn from_handshake(
        peer_identity_b64: String,
        auth_key: [u8; KEY_LEN],
        dhs: Identity,
        dhr: PublicKey,
        rk: [u8; KEY_LEN],
        cks: Option<[u8; KEY_LEN]>,
        ckr: Option<[u8; KEY_LEN]>,
    ) -> (r: SecureSession)
        ensures
            r.wf(),
            r@.peer == peer_identity_b64@,
            r@.auth_key == auth_key@,
            r@.ratchet == (RatchetState {
                dhs: Some(dhs@),
                used: Seq::empty(),
                dhr: Some(dhr@),
                rk: rk@,
                cks: match cks {
                    Some(k) => Some(k@),
                    None => None,
                },
                ckr: match ckr {
                    Some(k) => Some(k@),
                    None => None,
                },
                ns: 0,
                nr: 0,
                pn: 0,
                skipped: Map::empty(),
            }),
    {
        proof {
            use_type_invariant(&dhs);
        }
        let r = SecureSession {
            peer_identity_b64,
            auth_key,
            ratchet: DoubleRatchet {
                dhs: Some(dhs),
                used: Vec::new(),
                dhr: Some(dhr),
                rk,
                cks,
                ckr,
                ns: 0,
                nr: 0,
                pn: 0,
                mkskipped: SkippedKeys::new(),
            },
        };
        assert(r@.ratchet.used =~= Seq::empty());
        r
    }

    /// The identity of the peer, as it was sent.
    pub fn peer_identity_b64(&self) -> (peer: &str)
        ensures
            peer@ == self@.peer,
    {
        self.peer_identity_b64.as_str()
    }

    /// Whether the count of sent messages has room for one more.
    pub fn can_encrypt(&self) -> (r: bool)
        ensures
            r == can_send(self@.ratchet),
    {
        self.ratchet.cks.is_none() || self.ratchet.dhs.is_none() || self.ratchet.ns < u32::MAX
    }

    /// Whether passing over the messages before number `until` would overfill the window.
    fn overfills(&self, until: u32) -> (r: bool)
        requires
            self.wf(),
            self@.ratchet.dhr is Some,
            self@.ratchet.ckr is Some,
        ensures
            r == (skipped_to(self@.ratchet, until as nat).1 is Err),
    {
        if self.ratchet.nr.saturating_add(MAX_SKIP) < until {
            return true;
        }
        let dh = match &self.ratchet.dhr {
            Some(dhr) => keys::pk_b64(dhr),
            None => return false,
        };
        let ghost s = self@.ratchet;
        let ghost mut t = s;
        let mut count: usize = self.ratchet.mkskipped.len();
        let mut n: u32 = self.ratchet.nr;
        while n < until
            invariant
                self.wf(),
                s == self@.ratchet,
                s.dhr is Some,
                dh@ == keys::key_text(s.dhr->0),
                t.dhr == s.dhr,
                t.ckr is Some,
                t.nr == n,
                t.skipped.dom().finite(),
                count == t.skipped.len(),
                forall|m: u32|
                    m >= n ==> #[trigger] t.skipped.contains_key((dh@, m))
                        == s.skipped.contains_key((dh@, m)),
                skipped_each(t, until as nat).1 == skipped_to(s, until as nat).1,
            decreases until - n,
        {
            let ghost place = (dh@, n);
            let ghost next = passed_one(t);
            assert(next.skipped.dom() =~= t.skipped.dom().insert(place));
            if count > MAX_SKIP as usize {
                return true;
            }
            if !self.ratchet.mkskipped.holds(&dh, n) {
                count = count + 1;
            }
            if count > MAX_SKIP as usize {
                return true;
            }
            proof {
                t = next;
            }
            n = n + 1;
        }
        false
    }

    /// Whether the count of received messages has room for this message.
    pub fn can_decrypt(&self, msg: &RatchetMessage) -> (r: bool)
        requires
            self.wf(),
        ensures
            r == can_receive(self@.ratchet, msg.header@),
    {
        proof {
            lemma_skipped_count(self@.ratchet, msg.header.n as nat);
            lemma_skipped_keeps_keys(self@.ratchet, msg.header.n as nat);
        }
        if self.ratchet.nr < u32::MAX && msg.header.n < u32::MAX {
            return true;
        }
        if self.ratchet.mkskipped.holds(&msg.header.dh_public_b64, msg.header.n)
            || keys::parse_public_key(msg.header.dh_public_b64.as_str()).is_err()
            || !self.is_current(&msg.header) {
            return true;
        }
        if self.ratchet.ckr.is_none() {
            return true;
        }
        self.overfills(msg.header.n)
    }

    /// The side of the ratchet that sending moves, as it stands.
    pub fn send_mark(&self) -> (r: SendMark)
        ensures
            r@ == send_side(self@.ratchet),
    {
        SendMark {
            dhs: match &self.ratchet.dhs {
                Some(k) => Some(k.clone()),
                None => None,
            },
            used: text::copy_texts(&self.ratchet.used),
            rk: self.ratchet.rk,
            cks: self.ratchet.cks,
            ns: self.ratchet.ns,
            pn: self.ratchet.pn,
        }
    }

    /// Goes back to before a message was sealed that was then not sent, unless something has moved
    /// the sending chain since. The marks are those of before and after.
    pub fn unsend(&mut self, before: SendMark, after: &SendMark)
        requires
            old(self).wf(),
        ensures
            final(self).wf(),
            final(self)@ == (SessionState {
                ratchet: unsent(old(self)@.ratchet, before@, after@),
                ..old(self)@
            }),
    {
        let unmoved = match (&self.ratchet.cks, &after.cks) {
            (Some(a), Some(b)) => text::same_bytes(a, b),
            (None, None) => true,
            _ => false,
        } && self.ratchet.ns == after.ns;
        if before.dhs.is_none() || !unmoved {
            return ;
        }
        proof {
            match &before.dhs {
                Some(k) => {
                    use_type_invariant(k);
                },
                None => {},
            }
        }
        self.ratchet.dhs = before.dhs;
        self.ratchet.used = before.used;
        self.ratchet.rk = before.rk;
        self.ratchet.cks = before.cks;
        self.ratchet.ns = before.ns;
        self.ratchet.pn = before.pn;
    }

    /// Passes over the messages before number `until` of the receiving chain.
    fn skip_message_keys(&mut self, until: u32) -> (r: Result<(), CryptoError>)
        requires
            old(self).wf(),
        ensures
            final(self).wf(),
            final(self)@.peer == old(self)@.peer,
            final(self)@.auth_key == old(self)@.auth_key,
            (final(self)@.ratchet, r) == skipped_to(old(self)@.ratchet, until as nat),
    {
        if self.ratchet.nr.saturating_add(MAX_SKIP) < until {
            return Err(CryptoError::SkippedKeysOverflow);
        }
        while self.ratchet.nr < until
            invariant
                self.wf(),
                self@.peer == old(self)@.peer,
                self@.auth_key == old(self)@.auth_key,
                skipped_each(self@.ratchet, until as nat) == skipped_each(
                    old(self)@.ratchet,
                    until as nat,
                ),
                skipped_to(old(self)@.ratchet, until as nat) == skipped_each(
                    old(self)@.ratchet,
                    until as nat,
                ),
            decreases until - self.ratchet.nr,
        {
            let dhr = match self.ratchet.dhr {
                Some(dhr) => dhr,
                None => return Err(CryptoError::Ratchet("missing remote DH for skip")),
            };
            let ckr = match self.ratchet.ckr {
                Some(ckr) => ckr,
                None => return Err(CryptoError::Ratchet("missing recv chain for skip")),
            };
            let ghost before = self@.ratchet;
            let (next, mk) = kdf::kdf_ck(&ckr);
            self.ratchet.ckr = Some(next);
            self.ratchet.mkskipped.insert(keys::pk_b64(&dhr), self.ratchet.nr, mk);
            self.ratchet.nr = self.ratchet.nr + 1;
            assert(self@.ratchet == passed_one(before));
            if self.ratchet.mkskipped.len() > MAX_SKIP as usize {
                return Err(CryptoError::SkippedKeysOverflow);
            }
        }
        Ok(())
    }

    /// Whether a key was never one of the own keys.
    fn is_new(&self, key: &Identity) -> (r: bool)
        ensures
            r == new_key(self@.ratchet, key@),
    {
        let name = key.public_key_b64();
        let current = match &self.ratchet.dhs {
            Some(dhs) => dhs.public_key_b64() == name,
            None => false,
        };
        !current && !text::holds_text(&self.ratchet.used, name.as_str())
    }

    /// Draws a key for a new chain, one that was never one of the own keys and is not the one named
    /// `avoided`. Where none of eight is such a key, it is the current key that comes back.
    pub fn draw_key(&self, avoided: &str) -> (r: Identity)
        ensures
            r@.valid(),
            drawn_key(self@.ratchet, avoided@, r@),
    {
        let mut tries: u8 = 0;
        while tries < 8
            decreases 8 - tries,
        {
            let key = Identity::generate();
            if self.is_new(&key) && !text::same_text(key.public_key_b64().as_str(), avoided) {
                return key;
            }
            tries = tries + 1;
        }
        match &self.ratchet.dhs {
            Some(dhs) => {
                proof {
                    use_type_invariant(dhs);
                }
                dhs.clone()
            },
            None => Identity::generate(),
        }
    }

    /// Enters the current key among those of earlier chains.
    fn retire_key(&mut self)
        requires
            old(self).wf(),
        ensures
            final(self).wf(),
            final(self)@ == (SessionState {
                ratchet: RatchetState {
                    used: used_up(old(self)@.ratchet),
                    ..old(self)@.ratchet
                },
                ..old(self)@
            }),
    {
        match &self.ratchet.dhs {
            Some(dhs) => {
                let name = dhs.public_key_b64();
                self.ratchet.used.push(name);
                assert(text::texts(self.ratchet.used@) =~= used_up(old(self)@.ratchet));
            },
            None => {},
        }
    }

    /// Starts a receiving chain with the key the other has sent, and a sending chain with `fresh`,
    /// unless that was one of the own keys before.
    fn dh_ratchet_recv(&mut self, remote: PublicKey, fresh: Identity) -> (r: Result<(), CryptoError>)
        requires
            old(self).wf(),
        ensures
            final(self).wf(),
            final(self)@.peer == old(self)@.peer,
            final(self)@.auth_key == old(self)@.auth_key,
            (final(self)@.ratchet, r) == ratcheted_by_receiving(
                old(self)@.ratchet,
                remote@,
                fresh@,
            ),
    {
        proof {
            use_type_invariant(&fresh);
        }
        let is_new = self.is_new(&fresh);
        self.ratchet.nr = 0;
        self.ratchet.dhr = Some(remote);
        let shared = match &self.ratchet.dhs {
            Some(dhs) => dhs.dh(&remote),
            None => {
                self.ratchet.pn = self.ratchet.ns;
                self.ratchet.ns = 0;
                return Err(CryptoError::Ratchet("missing local DH for recv ratchet"));
            },
        };
        let (rk, ckr) = kdf::kdf_rk(&self.ratchet.rk, &shared);
        self.ratchet.ckr = Some(ckr);
        if !is_new {
            self.ratchet.rk = rk;
            return Ok(());
        }
        self.retire_key();
        self.ratchet.pn = self.ratchet.ns;
        self.ratchet.ns = 0;
        let (rk2, cks) = kdf::kdf_rk(&rk, &fresh.dh(&remote));
        self.ratchet.rk = rk2;
        self.ratchet.cks = Some(cks);
        self.ratchet.dhs = Some(fresh);
        Ok(())
    }

    /// Starts a sending chain with `fresh`.
    fn dh_ratchet_send(&mut self, fresh: Identity) -> (r: Result<(), CryptoError>)
        requires
            old(self).wf(),
        ensures
            final(self).wf(),
            final(self)@.peer == old(self)@.peer,
            final(self)@.auth_key == old(self)@.auth_key,
            (final(self)@.ratchet, r) == ratcheted_by_sending(old(self)@.ratchet, fresh@),
    {
        proof {
            use_type_invariant(&fresh);
        }
        let remote = match self.ratchet.dhr {
            Some(remote) => remote,
            None => return Err(CryptoError::Ratchet("missing remote DH for send ratchet")),
        };
        let (rk, cks) = kdf::kdf_rk(&self.ratchet.rk, &fresh.dh(&remote));
        self.retire_key();
        self.ratchet.rk = rk;
        self.ratchet.cks = Some(cks);
        self.ratchet.pn = self.ratchet.ns;
        self.ratchet.ns = 0;
        self.ratchet.dhs = Some(fresh);
        Ok(())
    }

    /// Seals the next message of the sending chain under a nonce.
    fn send_next(&mut self, plaintext: &[u8], nonce: &[u8; NONCE_LEN]) -> (r: Result<
        RatchetMessage,
        CryptoError,
    >)
        requires
            old(self).wf(),
            can_send(old(self)@.ratchet),
        ensures
            final(self).wf(),
            final(self)@.peer == old(self)@.peer,
            final(self)@.auth_key == old(self)@.auth_key,
            sent_as(
                old(self)@.ratchet,
                plaintext@,
                sent_next(old(self)@.ratchet, nonce@, plaintext@),
                final(self)@.ratchet,
                r,
            ),
    {
        let header = match &self.ratchet.dhs {
            Some(dhs) => RatchetHeader {
                dh_public_b64: dhs.public_key_b64(),
                pn: self.ratchet.pn,
                n: self.ratchet.ns,
            },
            None => return Err(CryptoError::Ratchet("missing local DH")),
        };
        let aad = header_aad(&header);
        let cks = match self.ratchet.cks {
            Some(cks) => cks,
            None => return Err(CryptoError::Ratchet("missing send chain")),
        };
        let (next, mk) = kdf::kdf_ck(&cks);
        self.ratchet.cks = Some(next);
        self.ratchet.ns = self.ratchet.ns + 1;
        proof {
            lemma_header_len(header@);
        }
        match aead::aead_encrypt_with(&mk, nonce, plaintext, aad.as_slice()) {
            Ok(payload) => Ok(RatchetMessage { header, payload }),
            Err(e) => Err(e),
        }
    }

    /// Seals the next message, with `fresh` as the key of a new chain where there is no sending
    /// chain, and the nonce given.
    pub fn encrypt_with(
        &mut self,
        plaintext: &[u8],
        fresh: Identity,
        nonce: &[u8; NONCE_LEN],
    ) -> (r: Result<RatchetMessage, CryptoError>)
        requires
            old(self).wf(),
            can_send(old(self)@.ratchet),
        ensures
            final(self).wf(),
            final(self)@.peer == old(self)@.peer,
            final(self)@.auth_key == old(self)@.auth_key,
            sent_as(
                ready(old(self)@.ratchet, fresh@),
                plaintext@,
                encrypted(old(self)@.ratchet, fresh@, nonce@, plaintext@),
                final(self)@.ratchet,
                r,
            ),
            r matches Ok(msg) ==> encrypts(
                old(self)@.ratchet,
                fresh@,
                plaintext@,
                final(self)@.ratchet,
                msg@,
            ),
    {
        let ghost drawn = fresh@;
        proof {
            use_type_invariant(&fresh);
        }
        if self.ratchet.cks.is_none() {
            match self.dh_ratchet_send(fresh) {
                Ok(_) => {},
                Err(e) => return Err(e),
            }
        }
        let r = self.send_next(plaintext, nonce);
        proof {
            assert(nonce@.len() == 12);
            let outcome = encrypted(old(self)@.ratchet, drawn, nonce@, plaintext@);
            assert(r matches Ok(msg) ==> outcome == (
                self@.ratchet,
                Ok::<Message, CryptoError>(msg@),
            ));
        }
        r
    }

    /// Encrypts a plaintext as the next message to the peer. Where there is no sending chain yet,
    /// a new key starts one.
    pub fn encrypt(&mut self, plaintext: &[u8]) -> (r: Result<RatchetMessage, CryptoError>)
        requires
            old(self).wf(),
            can_send(old(self)@.ratchet),
        ensures
            final(self).wf(),
            final(self)@.peer == old(self)@.peer,
            final(self)@.auth_key == old(self)@.auth_key,
            exists|fresh: KeyPair, nonce: Seq<u8>|
                (old(self)@.ratchet.cks is None ==> fresh.valid() && drawn_key(
                    old(self)@.ratchet,
                    Seq::empty(),
                    fresh,
                )) && nonce.len() == 12 && sent_as(
                    ready(old(self)@.ratchet, fresh),
                    plaintext@,
                    #[trigger] encrypted(old(self)@.ratchet, fresh, nonce, plaintext@),
                    final(self)@.ratchet,
                    r,
                ),
            r matches Ok(msg) ==> exists|fresh: KeyPair| #[trigger]
                encrypts(
                    old(self)@.ratchet,
                    fresh,
                    plaintext@,
                    final(self)@.ratchet,
                    msg@,
                ),
            old(self)@.ratchet.dhs is Some && old(self)@.ratchet.dhr is Some ==> (r is Ok
                <==> aead::sealable(plaintext@.len())),
    {
        let nonce = primitives::random_nonce();
        assert(nonce@.len() == 12);
        if self.ratchet.cks.is_none() {
            let fresh = self.draw_key("");
            proof {
                reveal_strlit("");
                assert(""@ =~= Seq::empty());
            }
            self.encrypt_with(plaintext, fresh, &nonce)
        } else {
            let r = self.send_next(plaintext, &nonce);
            proof {
                let fresh: KeyPair = arbitrary();
                let outcome = encrypted(old(self)@.ratchet, fresh, nonce@, plaintext@);
                assert(r matches Ok(msg) ==> encrypts(
                    old(self)@.ratchet,
                    fresh,
                    plaintext@,
                    self@.ratchet,
                    msg@,
                ));
            }
            r
        }
    }

    /// Opens a message that came late with the key that was kept for it.
    fn try_skipped(&mut self, msg: &RatchetMessage) -> (r: Result<Option<Vec<u8>>, CryptoError>)
        requires
            old(self).wf(),
        ensures
            final(self).wf(),
            final(self)@.peer == old(self)@.peer,
            final(self)@.auth_key == old(self)@.auth_key,
            ({
                let s = old(self)@.ratchet;
                let place = (msg.header@.dh, msg.header.n);
                let outcome = aead::opened(s.skipped[place], msg.payload@, header_bytes(msg.header@));
                match r {
                    Ok(Some(plaintext)) => s.skipped.contains_key(place) && outcome == Ok::<
                        Seq<u8>,
                        CryptoError,
                    >(plaintext@),
                    Err(e) => s.skipped.contains_key(place) && outcome == Err::<
                        Seq<u8>,
                        CryptoError,
                    >(e),
                    Ok(None) => !s.skipped.contains_key(place),
                }
            }),
            final(self)@.ratchet == (if r matches Ok(None) {
                old(self)@.ratchet
            } else {
                RatchetState {
                    skipped: old(self)@.ratchet.skipped.remove(
                        (msg.header@.dh, msg.header.n),
                    ),
                    ..old(self)@.ratchet
                }
            }),
    {
        match self.ratchet.mkskipped.take(&msg.header.dh_public_b64, msg.header.n) {
            Some(mk) => {
                let aad = header_aad(&msg.header);
                match aead::aead_decrypt(&mk, &msg.payload, aad.as_slice()) {
                    Ok(plaintext) => Ok(Some(plaintext)),
                    Err(e) => Err(e),
                }
            },
            None => Ok(None),
        }
    }

    /// Whether a header names the key that the receiving chain belongs to.
    fn is_current(&self, header: &RatchetHeader) -> (r: bool)
        ensures
            r == names_current_key(self@.ratchet, header@),
    {
        match &self.ratchet.dhr {
            Some(dhr) => keys::pk_b64(dhr) == header.dh_public_b64,
            None => false,
        }
    }

    /// Opens a message of the receiving chain.
    fn receive_next(&mut self, msg: &RatchetMessage) -> (r: Result<Vec<u8>, CryptoError>)
        requires
            old(self).wf(),
            has_room(old(self)@.ratchet, msg.header.n as nat),
        ensures
            final(self).wf(),
            final(self)@.peer == old(self)@.peer,
            final(self)@.auth_key == old(self)@.auth_key,
            received_as(received_next(old(self)@.ratchet, msg@), final(self)@.ratchet, r),
    {
        proof {
            lemma_skipped_count(old(self)@.ratchet, msg.header.n as nat);
        }
        match self.skip_message_keys(msg.header.n) {
            Ok(_) => {},
            Err(e) => return Err(e),
        }
        let ckr = match self.ratchet.ckr {
            Some(ckr) => ckr,
            None => return Err(CryptoError::Ratchet("missing recv chain")),
        };
        let (next, mk) = kdf::kdf_ck(&ckr);
        self.ratchet.ckr = Some(next);
        self.ratchet.nr = self.ratchet.nr + 1;
        let aad = header_aad(&msg.header);
        aead::aead_decrypt(&mk, &msg.payload, aad.as_slice())
    }

    /// Decrypts a message of the peer, with `fresh` as the key of a new chain where the message
    /// starts one.
    pub fn decrypt_with(&mut self, msg: &RatchetMessage, fresh: Identity) -> (r: Result<
        Vec<u8>,
        CryptoError,
    >)
        requires
            old(self).wf(),
            can_receive(old(self)@.ratchet, msg.header@),
        ensures
            final(self).wf(),
            final(self)@.peer == old(self)@.peer,
            final(self)@.auth_key == old(self)@.auth_key,
            received_as(decrypted(old(self)@.ratchet, fresh@, msg@), final(self)@.ratchet, r),
    {
        match self.try_skipped(msg) {
            Ok(Some(plaintext)) => return Ok(plaintext),
            Ok(None) => {},
            Err(e) => return Err(e),
        }
        let remote = match keys::parse_public_key(msg.header.dh_public_b64.as_str()) {
            Ok(remote) => remote,
            Err(e) => return Err(e),
        };
        if !self.is_current(&msg.header) {
            match self.skip_message_keys(msg.header.pn) {
                Ok(_) => {},
                Err(e) => return Err(e),
            }
            match self.dh_ratchet_recv(remote, fresh) {
                Ok(_) => {},
                Err(e) => return Err(e),
            }
            proof {
                lemma_skipped_count(self@.ratchet, msg.header.n as nat);
            }
        }
        self.receive_next(msg)
    }

    /// Decrypts a message of the peer: one that came late, the next of the receiving chain, or one
    /// that starts a new chain. Messages passed over can be decrypted later.
    pub fn decrypt(&mut self, msg: &RatchetMessage) -> (r: Result<Vec<u8>, CryptoError>)
        requires
            old(self).wf(),
            can_receive(old(self)@.ratchet, msg.header@),
        ensures
            final(self).wf(),
            final(self)@.peer == old(self)@.peer,
            final(self)@.auth_key == old(self)@.auth_key,
            exists|fresh: KeyPair|
                (starts_chain(old(self)@.ratchet, msg.header@) ==> fresh.valid() && drawn_key(
                    old(self)@.ratchet,
                    Seq::empty(),
                    fresh,
                )) && received_as(
                    #[trigger] decrypted(old(self)@.ratchet, fresh, msg@),
                    final(self)@.ratchet,
                    r,
                ),
    {
        let ghost drawn: KeyPair = arbitrary();
        let ghost before = self@.ratchet;
        match self.try_skipped(msg) {
            Ok(Some(plaintext)) => {
                assert(received_as(
                    decrypted(before, drawn, msg@),
                    self@.ratchet,
                    Ok(plaintext),
                ));
                return Ok(plaintext);
            },
            Ok(None) => {},
            Err(e) => {
                assert(received_as(decrypted(before, drawn, msg@), self@.ratchet, Err(e)));
                return Err(e);
            },
        }
        let remote = match keys::parse_public_key(msg.header.dh_public_b64.as_str()) {
            Ok(remote) => remote,
            Err(e) => {
                assert(received_as(decrypted(before, drawn, msg@), self@.ratchet, Err(e)));
                return Err(e);
            },
        };
        if !self.is_current(&msg.header) {
            let fresh = self.draw_key("");
            proof {
                reveal_strlit("");
                assert(""@ =~= Seq::empty());
            }
            return self.decrypt_with(msg, fresh);
        }
        let r = self.receive_next(msg);
        assert(received_as(decrypted(before, drawn, msg@), self@.ratchet, r));
        r
    }

    /// Seals a plaintext under the key of the session itself.
    pub fn seal_auth(&self, plaintext: &[u8]) -> (r: Result<EncryptedPayload, CryptoError>)
        ensures
            match r {
                Ok(payload) => aead::seals(self@.auth_key, auth_label(), plaintext@, payload@)
                    && aead::sealable(plaintext@.len()),
                Err(e) => e == CryptoError::Encrypt && !aead::sealable(plaintext@.len()),
            },
    {
        proof {
            reveal_strlit("session-auth-v1");
            keys::lemma_ascii_len("session-auth-v1"@);
        }
        aead::aead_encrypt(&self.auth_key, plaintext, "session-auth-v1".as_bytes())
    }

    /// Opens what the peer has sealed under the key of the session itself.
    pub fn open_auth(&self, payload: &EncryptedPayload) -> (r: Result<Vec<u8>, CryptoError>)
        ensures
            match r {
                Ok(plaintext) => aead::opened(self@.auth_key, payload@, auth_label()) == Ok::<
                    Seq<u8>,
                    CryptoError,
                >(plaintext@),
                Err(e) => aead::opened(self@.auth_key, payload@, auth_label()) == Err::<
                    Seq<u8>,
                    CryptoError,
                >(e),
            },
    {
        aead::aead_decrypt(&self.auth_key, payload, "session-auth-v1".as_bytes())
    }
}

} // verus!
