//! The sessions that a peer holds with one other peer.
//!
//! Two peers may shake hands more than once, and neither knows at once whether the other has come
//! to the end of it. So a new handshake takes nothing away: what was sealed under an earlier session
//! can still be read, and a session is sent under only once the other peer is known to hold it.
use crate::crypto::aead;
use crate::crypto::aead::{EncryptedPayload, SealedPayload, NONCE_LEN};
use crate::crypto::error::CryptoError;
use crate::crypto::handshake::{Accept, HandshakeAccept, HandshakeOffer, Offer};
use crate::crypto::keys::Identity;
use crate::crypto::keys::KeyPair;
use crate::crypto::ratchet;
use crate::crypto::ratchet::{
    Message, RatchetMessage, RatchetState, SecureSession, SendMark, SendSide, SessionState,
};
use vstd::prelude::*;

verus! {

/// The answer that was given to an offer.
#[verifier::ext_equal]
pub struct Answer {
    pub ephemeral: Seq<char>,
    pub listen_url: Seq<char>,
    pub accept: Accept,
}

/// A session and, on the side that answered, the answer that led to it.
#[verifier::ext_equal]
pub struct Held {
    pub secure: SessionState,
    pub answer: Option<Answer>,
}

/// The sessions in the abstract, in the order in which they were agreed on. One is sent under.
#[verifier::ext_equal]
pub struct Ring {
    pub held: Seq<Held>,
    pub current: nat,
}

/// A ratchet that can send: with keys on both sides.
pub open spec fn live(ratchet: RatchetState) -> bool {
    ratchet.valid() && ratchet.dhs is Some && ratchet.dhr is Some
}

/// The first session in which a message can be read; their number where there is none.
pub open spec fn first_reading(held: Seq<Held>, msg: Message) -> nat
    decreases held.len(),
{
    if held.len() == 0 {
        0
    } else {
        let i = first_reading(held.drop_last(), msg);
        if i < held.len() - 1 || ratchet::plaintext_of(held.last().secure.ratchet, msg) is Ok {
            i
        } else {
            held.len()
        }
    }
}

/// The first session under which a payload was sealed; their number where there is none.
pub open spec fn first_proving(held: Seq<Held>, proof_payload: SealedPayload) -> nat
    decreases held.len(),
{
    if held.len() == 0 {
        0
    } else {
        let i = first_proving(held.drop_last(), proof_payload);
        if i < held.len() - 1 || aead::opened(
            held.last().secure.auth_key,
            proof_payload,
            ratchet::auth_label(),
        ) is Ok {
            i
        } else {
            held.len()
        }
    }
}

/// Whether an answer was given to an offer with these keys and this URL.
pub open spec fn answers_offer(held: Held, offer: Offer) -> bool {
    held.answer matches Some(answer) && answer.ephemeral == offer.ephemeral && answer.listen_url
        == offer.listen_url
}

/// The answer that was given to an offer, if it was answered before.
pub open spec fn answer_to(held: Seq<Held>, offer: Offer) -> Option<Accept>
    decreases held.len(),
{
    if held.len() == 0 {
        None
    } else {
        match answer_to(held.drop_last(), offer) {
            Some(accept) => Some(accept),
            None => if answers_offer(held.last(), offer) {
                Some(held.last().answer->0.accept)
            } else {
                None
            },
        }
    }
}

impl Ring {
    /// One session.
    pub open spec fn of(held: Held) -> Ring {
        Ring { held: seq![held], current: 0 }
    }

    /// There is a session to send under, and each has keys on both sides.
    pub open spec fn valid(self) -> bool {
        &&& self.current < self.held.len()
        &&& forall|i: int|
            0 <= i < self.held.len() ==> live((#[trigger] self.held[i]).secure.ratchet)
    }

    /// The session that is sent under.
    pub open spec fn sending(self) -> SessionState {
        self.held[self.current as int].secure
    }

    /// The sessions with another state of one ratchet.
    pub open spec fn with_ratchet(self, i: int, ratchet: RatchetState) -> Ring {
        let secure = SessionState { ratchet, ..self.held[i].secure };
        Ring { held: self.held.update(i, Held { secure, ..self.held[i] }), ..self }
    }

    /// The sessions once the other peer is known to hold one of them: it is sent under, unless a
    /// later one is already.
    pub open spec fn known(self, i: nat) -> Ring {
        Ring {
            current: if self.current < i {
                i
            } else {
                self.current
            },
            ..self
        }
    }

    /// The sessions with one more that the other peer may not hold yet.
    pub open spec fn with_offered(self, held: Held) -> Ring {
        Ring { held: self.held.push(held), ..self }
    }

    /// The sessions with one more that the other peer has proved to hold.
    pub open spec fn with_agreed(self, held: Held) -> Ring {
        Ring { held: self.held.push(held), current: self.held.len() }
    }

    /// What reading a message comes to: it is read in the first session in which it can be. Where
    /// it cannot be read, nothing changes, and the reason is that of the session that is sent under.
    pub open spec fn reading(self, fresh: KeyPair, msg: Message) -> (
        Ring,
        Result<Seq<u8>, CryptoError>,
    ) {
        let i = first_reading(self.held, msg);
        if i < self.held.len() {
            let (ratchet, r) = ratchet::decrypted(
                self.held[i as int].secure.ratchet,
                fresh,
                msg,
            );
            (self.with_ratchet(i as int, ratchet).known(i), r)
        } else {
            (self, ratchet::plaintext_of(self.sending().ratchet, msg))
        }
    }

    /// What a proof that was sealed under a session opens to.
    pub open spec fn proved(self, proof_payload: SealedPayload) -> Result<Seq<u8>, CryptoError> {
        let i = first_proving(self.held, proof_payload);
        let secure = if i < self.held.len() {
            self.held[i as int].secure
        } else {
            self.sending()
        };
        aead::opened(secure.auth_key, proof_payload, ratchet::auth_label())
    }

    /// What a key looks like that is drawn for the chain that follows where a message starts one: it
    /// is new in the session that reads the message, and not the key named `avoided`; or it is the
    /// current key of that session, where no such key came.
    pub open spec fn drawn_for(self, msg: Message, avoided: Seq<char>, key: KeyPair) -> bool {
        let i = first_reading(self.held, msg);
        i < self.held.len() ==> ratchet::drawn_key(
            self.held[i as int].secure.ratchet,
            avoided,
            key,
        )
    }

    /// Whether the counts of the sessions have room for a message.
    pub open spec fn can_receive(self, msg: Message) -> bool {
        forall|i: int|
            0 <= i < self.held.len() ==> ratchet::can_receive(
                (#[trigger] self.held[i]).secure.ratchet,
                msg.header,
            )
    }

    /// The sessions with one gone back to before a message was sealed.
    pub open spec fn with_unsent(self, i: nat, before: SendSide, after: SendSide) -> Ring {
        if i < self.held.len() {
            self.with_ratchet(
                i as int,
                ratchet::unsent(self.held[i as int].secure.ratchet, before, after),
            )
        } else {
            self
        }
    }
}

/// The first session in which a message is read reads it, and none before it does.
pub proof fn lemma_first_reading(held: Seq<Held>, msg: Message)
    ensures
        first_reading(held, msg) <= held.len(),
        first_reading(held, msg) < held.len() ==> ratchet::plaintext_of(
            held[first_reading(held, msg) as int].secure.ratchet,
            msg,
        ) is Ok,
        forall|i: int|
            0 <= i < first_reading(held, msg) ==> ratchet::plaintext_of(
                (#[trigger] held[i]).secure.ratchet,
                msg,
            ) is Err,
    decreases held.len(),
{
    if held.len() > 0 {
        lemma_first_reading(held.drop_last(), msg);
        assert forall|i: int| 0 <= i < first_reading(held, msg) implies ratchet::plaintext_of(
            (#[trigger] held[i]).secure.ratchet,
            msg,
        ) is Err by {
            if i < held.len() - 1 {
                assert(held.drop_last()[i] == held[i]);
            }
        }
    }
}

/// The first session that a payload was sealed under opens it, and none before it does.
pub proof fn lemma_first_proving(held: Seq<Held>, proof_payload: SealedPayload)
    ensures
        first_proving(held, proof_payload) <= held.len(),
        first_proving(held, proof_payload) < held.len() ==> aead::opened(
            held[first_proving(held, proof_payload) as int].secure.auth_key,
            proof_payload,
            ratchet::auth_label(),
        ) is Ok,
        forall|i: int|
            0 <= i < first_proving(held, proof_payload) ==> aead::opened(
                (#[trigger] held[i]).secure.auth_key,
                proof_payload,
                ratchet::auth_label(),
            ) is Err,
    decreases held.len(),
{
    if held.len() > 0 {
        lemma_first_proving(held.drop_last(), proof_payload);
        assert forall|i: int| 0 <= i < first_proving(held, proof_payload) implies aead::opened(
            (#[trigger] held[i]).secure.auth_key,
            proof_payload,
            ratchet::auth_label(),
        ) is Err by {
            if i < held.len() - 1 {
                assert(held.drop_last()[i] == held[i]);
            }
        }
    }
}

/// With one more session, an answer that was given stays; where there was none, the answer that led
/// to that session is the one.
pub proof fn lemma_one_more_answers(held: Seq<Held>, more: Held, offer: Offer)
    ensures
        answer_to(held, offer) is Some ==> answer_to(held.push(more), offer) == answer_to(
            held,
            offer,
        ),
        answer_to(held, offer) is None && answers_offer(more, offer) ==> answer_to(
            held.push(more),
            offer,
        ) == Some(more.answer->0.accept),
{
    assert(held.push(more).drop_last() =~= held);
}

/// An answer is given again only to the offer that it was given to: one with the same ephemeral key
/// and the same URL.
pub proof fn law_answers_belong_to_their_offers(held: Seq<Held>, offer: Offer)
    ensures
        answer_to(held, offer) matches Some(accept) ==> exists|k: int|
            0 <= k < held.len() && (#[trigger] held[k]).answer == Some(
                Answer { ephemeral: offer.ephemeral, listen_url: offer.listen_url, accept },
            ),
    decreases held.len(),
{
    if held.len() > 0 {
        law_answers_belong_to_their_offers(held.drop_last(), offer);
        if answer_to(held, offer) is Some {
            if answer_to(held.drop_last(), offer) is Some {
                let accept = answer_to(held.drop_last(), offer)->0;
                let k = choose|k: int|
                    0 <= k < held.drop_last().len() && (
                    #[trigger] held.drop_last()[k]).answer == Some(
                        Answer {
                            ephemeral: offer.ephemeral,
                            listen_url: offer.listen_url,
                            accept,
                        },
                    );
                assert(held[k] == held.drop_last()[k]);
            } else {
                assert(held[held.len() - 1] == held.last());
            }
        }
    }
}

/// A message that one session reads, and none before it, is read in that session.
pub proof fn lemma_reads_in(ring: Ring, j: nat, fresh: KeyPair, msg: Message)
    requires
        j < ring.held.len(),
        ratchet::plaintext_of(ring.held[j as int].secure.ratchet, msg) is Ok,
        forall|k: int|
            0 <= k < j ==> ratchet::plaintext_of(
                (#[trigger] ring.held[k]).secure.ratchet,
                msg,
            ) is Err,
    ensures
        ({
            let (read, r) = ratchet::decrypted(ring.held[j as int].secure.ratchet, fresh, msg);
            ring.reading(fresh, msg) == (ring.with_ratchet(j as int, read).known(j), r)
        }),
{
    lemma_first_reading(ring.held, msg);
    let i = first_reading(ring.held, msg);
    assert(i < ring.held.len() ==> ratchet::plaintext_of(
        ring.held[i as int].secure.ratchet,
        msg,
    ) is Ok);
}

/// A proof that was sealed under one session, and opens under none before it, proves that session.
pub proof fn lemma_proves_in(ring: Ring, j: nat, proof_payload: SealedPayload)
    requires
        j < ring.held.len(),
        aead::opened(
            ring.held[j as int].secure.auth_key,
            proof_payload,
            ratchet::auth_label(),
        ) is Ok,
        forall|k: int|
            0 <= k < j ==> aead::opened(
                (#[trigger] ring.held[k]).secure.auth_key,
                proof_payload,
                ratchet::auth_label(),
            ) is Err,
    ensures
        first_proving(ring.held, proof_payload) == j,
{
    lemma_first_proving(ring.held, proof_payload);
    let i = first_proving(ring.held, proof_payload);
    assert(i < ring.held.len() ==> aead::opened(
        ring.held[i as int].secure.auth_key,
        proof_payload,
        ratchet::auth_label(),
    ) is Ok);
}

/// The answer that was given to an offer.
struct GivenAnswer {
    ephemeral: String,
    listen_url: String,
    accept: HandshakeAccept,
}

/// A session and, on the side that answered, the answer that led to it.
struct HeldSession {
    secure: SecureSession,
    answer: Option<GivenAnswer>,
}

impl View for HeldSession {
    type V = Held;

    closed spec fn view(&self) -> Held {
        Held {
            secure: self.secure@,
            answer: match self.answer {
                Some(answer) => Some(
                    Answer {
                        ephemeral: answer.ephemeral@,
                        listen_url: answer.listen_url@,
                        accept: answer.accept@,
                    },
                ),
                None => None,
            },
        }
    }
}

/// The sessions that a peer holds with one other peer.
pub struct Sessions {
    held: Vec<HeldSession>,
    current: usize,
}

impl View for Sessions {
    type V = Ring;

    closed spec fn view(&self) -> Ring {
        Ring {
            held: self.held@.map_values(|h: HeldSession| h@),
            current: self.current as nat,
        }
    }
}

/// The answer that was given to an offer, in the abstract.
pub open spec fn given(offer: Offer, accept: Accept) -> Answer {
    Answer { ephemeral: offer.ephemeral, listen_url: offer.listen_url, accept }
}

/// A copy of an answer.
fn copy_accept(accept: &HandshakeAccept) -> (r: HandshakeAccept)
    ensures
        r@ == accept@,
{
    HandshakeAccept {
        identity_public_key_b64: accept.identity_public_key_b64.clone(),
        ephemeral_public_key_b64: accept.ephemeral_public_key_b64.clone(),
        proof: EncryptedPayload {
            nonce_b64: accept.proof.nonce_b64.clone(),
            ciphertext_b64: accept.proof.ciphertext_b64.clone(),
        },
    }
}

/// What is kept of an answer.
fn given_answer(offer: &HandshakeOffer, accept: &HandshakeAccept) -> (r: GivenAnswer)
    ensures
        r.ephemeral@ == offer@.ephemeral,
        r.listen_url@ == offer@.listen_url,
        r.accept@ == accept@,
{
    GivenAnswer {
        ephemeral: offer.ephemeral_public_key_b64.clone(),
        listen_url: offer.listen_url.clone(),
        accept: copy_accept(accept),
    }
}

impl Sessions {
    /// The state is a valid one, and the stores behind it are in order.
    pub open spec fn wf(self) -> bool {
        &&& self.stores_wf()
        &&& self@.valid()
    }

    /// No message key is held twice.
    pub closed spec fn stores_wf(self) -> bool {
        forall|i: int| 0 <= i < self.held@.len() ==> (#[trigger] self.held@[i]).secure.wf()
    }

    /// The session that a handshake ended in for the side that started it.
    pub fn agreed(secure: SecureSession) -> (r: Sessions)
        requires
            secure.wf(),
            live(secure@.ratchet),
        ensures
            r.wf(),
            r@ == Ring::of(Held { secure: secure@, answer: None }),
    {
        let r = Sessions { held: vec![HeldSession { secure, answer: None }], current: 0 };
        assert(r@ =~= Ring::of(Held { secure: secure@, answer: None }));
        r
    }

    /// The session that a handshake ended in for the side that answered it.
    pub fn answered(secure: SecureSession, offer: &HandshakeOffer, accept: &HandshakeAccept) -> (r:
        Sessions)
        requires
            secure.wf(),
            live(secure@.ratchet),
        ensures
            r.wf(),
            r@ == Ring::of(Held { secure: secure@, answer: Some(given(offer@, accept@)) }),
    {
        let answer = Some(given_answer(offer, accept));
        let r = Sessions { held: vec![HeldSession { secure, answer }], current: 0 };
        assert(r@ =~= Ring::of(
            Held { secure: secure@, answer: Some(given(offer@, accept@)) },
        ));
        r
    }

    /// Adds a session that the other peer has proved to hold, and sends under it.
    pub fn add_agreed(&mut self, secure: SecureSession)
        requires
            old(self).wf(),
            secure.wf(),
            live(secure@.ratchet),
        ensures
            final(self).wf(),
            final(self)@ == old(self)@.with_agreed(Held { secure: secure@, answer: None }),
    {
        let current: usize = self.held.len();
        self.held.push(HeldSession { secure, answer: None });
        self.current = current;
        assert(self@ =~= old(self)@.with_agreed(Held { secure: secure@, answer: None }));
    }

    /// Adds a session that was answered, and that the other peer may not hold yet.
    pub fn add_answered(
        &mut self,
        secure: SecureSession,
        offer: &HandshakeOffer,
        accept: &HandshakeAccept,
    )
        requires
            old(self).wf(),
            secure.wf(),
            live(secure@.ratchet),
        ensures
            final(self).wf(),
            final(self)@ == old(self)@.with_offered(
                Held { secure: secure@, answer: Some(given(offer@, accept@)) },
            ),
    {
        self.held.push(HeldSession { secure, answer: Some(given_answer(offer, accept)) });
        assert(self@ =~= old(self)@.with_offered(
            Held { secure: secure@, answer: Some(given(offer@, accept@)) },
        ));
    }

    /// The answer that was given to an offer, if it was answered before.
    pub fn answer_to(&self, offer: &HandshakeOffer) -> (r: Option<HandshakeAccept>)
        ensures
            match r {
                Some(accept) => answer_to(self@.held, offer@) == Some(accept@),
                None => answer_to(self@.held, offer@) is None,
            },
    {
        let ghost held = self@.held;
        let mut i: usize = 0;
        assert(held.take(0) =~= Seq::empty());
        let mut found: Option<HandshakeAccept> = None;
        while i < self.held.len()
            invariant
                held == self@.held,
                i <= self.held@.len(),
                match found {
                    Some(accept) => answer_to(held.take(i as int), offer@) == Some(accept@),
                    None => answer_to(held.take(i as int), offer@) is None,
                },
            decreases self.held@.len() - i,
        {
            assert(held.take(i + 1).drop_last() =~= held.take(i as int));
            assert(held[i as int] == self.held@[i as int]@);
            if found.is_none() {
                match &self.held[i].answer {
                    Some(answer) => {
                        if answer.ephemeral == offer.ephemeral_public_key_b64 && answer.listen_url
                            == offer.listen_url {
                            found = Some(copy_accept(&answer.accept));
                        }
                    },
                    None => {},
                }
            }
            i = i + 1;
        }
        assert(held.take(i as int) =~= held);
        found
    }

    /// Where the session stands that is sent under.
    pub fn place(&self) -> (r: usize)
        ensures
            r == self@.current,
    {
        self.current
    }

    /// The session that is sent under.
    pub fn sending(&self) -> (r: &SecureSession)
        requires
            self.wf(),
        ensures
            r@ == self@.sending(),
            r.wf(),
    {
        assert(self@.held[self.current as int] == self.held@[self.current as int]@);
        &self.held[self.current].secure
    }

    /// Puts a session in the place of another.
    fn put(&mut self, i: usize, secure: SecureSession)
        requires
            old(self).wf(),
            i < old(self)@.held.len(),
            secure.wf(),
            live(secure@.ratchet),
            secure@ == (SessionState {
                ratchet: secure@.ratchet,
                ..old(self)@.held[i as int].secure
            }),
        ensures
            final(self).wf(),
            final(self)@ == old(self)@.with_ratchet(i as int, secure@.ratchet),
    {
        assert(self@.held[i as int] == self.held@[i as int]@);
        self.held[i].secure = secure;
        assert(self@ =~= old(self)@.with_ratchet(i as int, secure@.ratchet));
    }

    /// Seals the next message in the session that is sent under.
    pub fn encrypt_with(&mut self, plaintext: &[u8], fresh: Identity, nonce: &[u8; NONCE_LEN]) -> (r:
        Result<RatchetMessage, CryptoError>)
        requires
            old(self).wf(),
            ratchet::can_send(old(self)@.sending().ratchet),
        ensures
            final(self).wf(),
            ({
                let s = old(self)@.sending().ratchet;
                let outcome = ratchet::encrypted(s, fresh@, nonce@, plaintext@);
                &&& final(self)@ == old(self)@.with_ratchet(
                    old(self)@.current as int,
                    outcome.0,
                )
                &&& ratchet::sent_as(
                    ratchet::ready(s, fresh@),
                    plaintext@,
                    outcome,
                    outcome.0,
                    r,
                )
                &&& r matches Ok(msg) ==> ratchet::encrypts(
                    s,
                    fresh@,
                    plaintext@,
                    outcome.0,
                    msg@,
                )
            }),
    {
        let mut secure = self.sending().clone();
        let r = secure.encrypt_with(plaintext, fresh, nonce);
        let place: usize = self.current;
        self.put(place, secure);
        r
    }

    /// Goes back to before a message was sealed in session `i`.
    pub fn unsend(&mut self, i: usize, before: SendMark, after: &SendMark)
        requires
            old(self).wf(),
        ensures
            final(self).wf(),
            final(self)@ == old(self)@.with_unsent(i as nat, before@, after@),
    {
        if i < self.held.len() {
            assert(self@.held[i as int] == self.held@[i as int]@);
            let mut secure = self.held[i].secure.clone();
            secure.unsend(before, after);
            self.put(i, secure);
        }
    }

    /// Whether the counts of the sessions have room for a message.
    pub fn can_decrypt(&self, message: &RatchetMessage) -> (r: bool)
        requires
            self.wf(),
        ensures
            r == self@.can_receive(message@),
    {
        let mut i: usize = 0;
        while i < self.held.len()
            invariant
                self.wf(),
                i <= self.held@.len(),
                forall|j: int|
                    0 <= j < i ==> ratchet::can_receive(
                        (#[trigger] self@.held[j]).secure.ratchet,
                        message@.header,
                    ),
            decreases self.held@.len() - i,
        {
            assert(self@.held[i as int] == self.held@[i as int]@);
            if !self.held[i].secure.can_decrypt(message) {
                return false;
            }
            i = i + 1;
        }
        true
    }

    /// Reads a message in the first session in which it can be read, with the key given, and leaves
    /// the sessions as they are: what comes with the plaintext is for [`Sessions::settle`].
    pub fn open_with(&self, message: &RatchetMessage, fresh: &Identity) -> (r: Result<
        (Opened, Vec<u8>),
        CryptoError,
    >)
        requires
            self.wf(),
            self@.can_receive(message@),
        ensures
            match r {
                Ok((opened, plaintext)) => {
                    &&& opened.fits(*self)
                    &&& opened.at() == first_reading(self@.held, message@)
                    &&& self@.reading(fresh@, message@) == (
                        opened.settled(*self),
                        Ok::<Seq<u8>, CryptoError>(plaintext@),
                    )
                },
                Err(e) => first_reading(self@.held, message@) == self@.held.len() && self@.reading(
                    fresh@,
                    message@,
                ) == (self@, Err::<Seq<u8>, CryptoError>(e)),
            },
    {
        let ghost held = self@.held;
        let mut reason = CryptoError::Decrypt;
        let mut i: usize = 0;
        assert(held.take(0) =~= Seq::empty());
        while i < self.held.len()
            invariant
                self.wf(),
                self@.can_receive(message@),
                held == self@.held,
                i <= self.held@.len(),
                first_reading(held.take(i as int), message@) == i,
                i > self.current ==> ratchet::plaintext_of(
                    self@.sending().ratchet,
                    message@,
                ) == Err::<Seq<u8>, CryptoError>(reason),
            decreases self.held@.len() - i,
        {
            assert(held[i as int] == self.held@[i as int]@);
            assert(held.take(i + 1).drop_last() =~= held.take(i as int));
            let ghost s = held[i as int].secure.ratchet;
            proof {
                ratchet::law_plaintext_is_not_drawn(
                    s,
                    fresh@,
                    KeyPair { secret: Seq::empty(), public: Seq::empty() },
                    message@,
                );
                ratchet::lemma_decrypted_keeps_keys(s, fresh@, message@);
            }
            let mut secure = self.held[i].secure.clone();
            match secure.decrypt_with(message, fresh.clone()) {
                Ok(plaintext) => {
                    proof {
                        lemma_first_reading_of_part(held, i + 1, message@);
                        assert(self@.reading(fresh@, message@).0 =~= self@.with_ratchet(
                            i as int,
                            secure@.ratchet,
                        ).known(i as nat));
                    }
                    return Ok((Opened { place: i, secure }, plaintext));
                },
                Err(e) => {
                    if i == self.current {
                        reason = e;
                    }
                },
            }
            i = i + 1;
        }
        assert(held.take(i as int) =~= held);
        Err(reason)
    }

    /// Draws a key for the chain that follows where a message starts one: one that is new in the
    /// session that reads it, and not the key named `avoided`.
    pub fn draw_key_for(&self, message: &RatchetMessage, avoided: &str) -> (r: Identity)
        requires
            self.wf(),
            self@.can_receive(message@),
        ensures
            r@.valid(),
            self@.drawn_for(message@, avoided@, r@),
    {
        match self.open_with(message, &Identity::generate()) {
            Ok((opened, _)) => {
                assert(self@.held[opened.place as int] == self.held@[opened.place as int]@);
                self.held[opened.place].secure.draw_key(avoided)
            },
            Err(_) => Identity::generate(),
        }
    }

    /// Makes what was read in a session final: its key is spent, and the other peer is known to hold
    /// the session.
    pub fn settle(&mut self, opened: Opened)
        requires
            old(self).wf(),
            opened.fits(*old(self)),
        ensures
            final(self).wf(),
            final(self)@ == opened.settled(*old(self)),
    {
        let place: usize = opened.place;
        self.put(place, opened.secure);
        if self.current < place {
            self.current = place;
        }
    }

    /// What a proof that was sealed under a session opens to, and where that session stands.
    pub fn open_auth(&self, payload: &EncryptedPayload) -> (r: (usize, Result<Vec<u8>, CryptoError>))
        requires
            self.wf(),
        ensures
            r.0 == first_proving(self@.held, payload@),
            match r.1 {
                Ok(proved) => self@.proved(payload@) == Ok::<Seq<u8>, CryptoError>(proved@) && r.0
                    < self@.held.len(),
                Err(e) => self@.proved(payload@) == Err::<Seq<u8>, CryptoError>(e) && r.0
                    == self@.held.len(),
            },
    {
        let ghost held = self@.held;
        let mut reason = CryptoError::Decrypt;
        let mut i: usize = 0;
        assert(held.take(0) =~= Seq::empty());
        while i < self.held.len()
            invariant
                self.wf(),
                held == self@.held,
                i <= self.held@.len(),
                first_proving(held.take(i as int), payload@) == i,
                i > self.current ==> aead::opened(
                    self@.sending().auth_key,
                    payload@,
                    ratchet::auth_label(),
                ) == Err::<Seq<u8>, CryptoError>(reason),
            decreases self.held@.len() - i,
        {
            assert(held[i as int] == self.held@[i as int]@);
            assert(held.take(i + 1).drop_last() =~= held.take(i as int));
            match self.held[i].secure.open_auth(payload) {
                Ok(proved) => {
                    proof {
                        lemma_first_proving_of_part(held, i + 1, payload@);
                    }
                    return (i, Ok(proved));
                },
                Err(e) => {
                    if i == self.current {
                        reason = e;
                    }
                },
            }
            i = i + 1;
        }
        assert(held.take(i as int) =~= held);
        (i, Err(reason))
    }

    /// Takes note that the other peer holds session `i`.
    pub fn know(&mut self, i: usize)
        requires
            old(self).wf(),
            i < old(self)@.held.len(),
        ensures
            final(self).wf(),
            final(self)@ == old(self)@.known(i as nat),
    {
        if self.current < i {
            self.current = i;
        }
    }
}

/// A session in which a message was read, before that is made final.
pub struct Opened {
    place: usize,
    secure: SecureSession,
}

impl Opened {
    /// What was read was read in one of these sessions.
    pub closed spec fn fits(self, sessions: Sessions) -> bool {
        &&& self.place < sessions@.held.len()
        &&& self.secure.wf()
        &&& live(self.secure@.ratchet)
        &&& self.secure@ == (SessionState {
            ratchet: self.secure@.ratchet,
            ..sessions@.held[self.place as int].secure
        })
    }

    /// Where the session stands in which it was read.
    pub closed spec fn at(self) -> nat {
        self.place as nat
    }

    /// The sessions once what was read is final.
    pub closed spec fn settled(self, sessions: Sessions) -> Ring {
        sessions@.with_ratchet(self.place as int, self.secure@.ratchet).known(self.place as nat)
    }
}

/// What the first sessions settle, all of them settle.
proof fn lemma_first_reading_of_part(held: Seq<Held>, part: int, msg: Message)
    requires
        0 <= part <= held.len(),
        first_reading(held.take(part), msg) < part,
    ensures
        first_reading(held, msg) == first_reading(held.take(part), msg),
    decreases held.len(),
{
    if part == held.len() {
        assert(held.take(part) =~= held);
    } else {
        assert(held.drop_last().take(part) =~= held.take(part));
        lemma_first_reading_of_part(held.drop_last(), part, msg);
    }
}

proof fn lemma_first_proving_of_part(held: Seq<Held>, part: int, proof_payload: SealedPayload)
    requires
        0 <= part <= held.len(),
        first_proving(held.take(part), proof_payload) < part,
    ensures
        first_proving(held, proof_payload) == first_proving(held.take(part), proof_payload),
    decreases held.len(),
{
    if part == held.len() {
        assert(held.take(part) =~= held);
    } else {
        assert(held.drop_last().take(part) =~= held.take(part));
        lemma_first_proving_of_part(held.drop_last(), part, proof_payload);
    }
}

} // verus!
