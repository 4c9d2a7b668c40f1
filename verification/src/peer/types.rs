//! What peers hand to each other and to their users.
use crate::crypto::aead::{EncryptedPayload, SealedPayload};
use crate::crypto::error::CryptoError;
use crate::crypto::ratchet::{Message, RatchetMessage};
use crate::peer::stamp::Timestamp;
use vstd::prelude::*;
use vstd::string::*;

verus! {

/// A message of the chat.
#[derive(Debug, Clone)]
pub struct ChatMessage {
    pub id: String,
    pub direction: String,
    pub body: String,
    pub at: Timestamp,
}

/// A message of the chat in the abstract.
pub struct Chat {
    pub id: Seq<char>,
    pub direction: Seq<char>,
    pub body: Seq<char>,
    pub at: Timestamp,
}

impl View for ChatMessage {
    type V = Chat;

    open spec fn view(&self) -> Chat {
        Chat {
            id: self.id@,
            direction: self.direction@,
            body: self.body@,
            at: self.at,
        }
    }
}

/// The messages of a list.
pub open spec fn chats(list: Seq<ChatMessage>) -> Seq<Chat> {
    list.map_values(|m: ChatMessage| m@)
}

/// A copy of a list of messages.
pub(crate) fn copy_messages(list: &Vec<ChatMessage>) -> (r: Vec<ChatMessage>)
    ensures
        chats(r@) == chats(list@),
{
    let mut r: Vec<ChatMessage> = Vec::new();
    let mut i: usize = 0;
    while i < list.len()
        invariant
            i <= list@.len(),
            chats(r@) == chats(list@).take(i as int),
        decreases list@.len() - i,
    {
        let m = &list[i];
        let ghost before = chats(r@);
        r.push(
            ChatMessage {
                id: m.id.clone(),
                direction: m.direction.clone(),
                body: m.body.clone(),
                at: m.at,
            },
        );
        assert(chats(r@) =~= before.push(m@));
        assert(before.push(m@) =~= chats(list@).take(i + 1));
        i = i + 1;
    }
    assert(chats(list@).take(i as int) =~= chats(list@));
    r
}

/// An encrypted message on its way.
#[derive(Debug, Clone)]
pub struct WireMessage {
    pub from_public_key_b64: String,
    pub message: RatchetMessage,
}

/// An encrypted message in the abstract.
pub struct Wire {
    pub from: Seq<char>,
    pub message: Message,
}

impl View for WireMessage {
    type V = Wire;

    open spec fn view(&self) -> Wire {
        Wire { from: self.from_public_key_b64@, message: self.message@ }
    }
}

/// The encrypted messages of a list.
pub open spec fn wires(list: Seq<WireMessage>) -> Seq<Wire> {
    list.map_values(|w: WireMessage| w@)
}

/// A request for what waits in a mailbox.
#[derive(Debug, Clone)]
pub struct PullRequest {
    pub from_public_key_b64: String,
    pub proof: EncryptedPayload,
}

/// A request for what waits in a mailbox, in the abstract.
pub struct Pull {
    pub from: Seq<char>,
    pub proof: SealedPayload,
}

impl View for PullRequest {
    type V = Pull;

    open spec fn view(&self) -> Pull {
        Pull { from: self.from_public_key_b64@, proof: self.proof@ }
    }
}

/// What a peer can tell its user about how it may be reached.
#[derive(Debug, Clone)]
pub struct NetworkHints {
    pub local_urls: Vec<String>,
    pub stun_public_ip: Option<String>,
    pub suggested_share_url: Option<String>,
}

/// What a peer shows of itself to its user.
#[derive(Debug, Clone)]
pub struct PeerSnapshot {
    pub listen_addr: String,
    pub share_url: String,
    pub public_key_b64: String,
    pub advertise_host: Option<String>,
    pub candidate_urls: Vec<String>,
    pub peer_url: Option<String>,
    pub peer_public_key_b64: Option<String>,
    pub connected: bool,
    pub peer_dialable: bool,
    pub safety_number: Option<String>,
    pub trust_state: String,
    pub messages: Vec<ChatMessage>,
}

/// A text that may be missing, in the abstract.
pub open spec fn text_view(s: Option<String>) -> Option<Seq<char>> {
    match s {
        Some(s) => Some(s@),
        None => None,
    }
}

/// Why a peer could not do what its user asked for.
#[derive(Debug)]
pub enum PeerError {
    Message(String),
    Crypto(CryptoError),
}

/// The reason in the abstract.
pub enum Fault {
    Message(Seq<char>),
    Crypto(CryptoError),
}

impl View for PeerError {
    type V = Fault;

    open spec fn view(&self) -> Fault {
        match self {
            PeerError::Message(s) => Fault::Message(s@),
            PeerError::Crypto(e) => Fault::Crypto(*e),
        }
    }
}

impl Fault {
    /// What the reason says to its reader.
    pub open spec fn text(self) -> Seq<char> {
        match self {
            Fault::Message(s) => s,
            Fault::Crypto(e) => e.text(),
        }
    }
}

impl PeerError {
    /// The error as a sentence.
    pub fn message(&self) -> (r: String)
        ensures
            r@ == self@.text(),
    {
        match self {
            PeerError::Message(s) => s.clone(),
            PeerError::Crypto(e) => e.message(),
        }
    }
}

/// How a request was refused.
#[derive(Debug, Clone, Copy, PartialEq, Eq, Structural)]
pub enum Status {
    BadRequest,
    Unauthorized,
    Forbidden,
    Conflict,
}

impl Status {
    /// The number of the status in HTTP.
    pub fn code(&self) -> (r: u16)
        ensures
            r == match self {
                Status::BadRequest => 400u16,
                Status::Unauthorized => 401u16,
                Status::Forbidden => 403u16,
                Status::Conflict => 409u16,
            },
    {
        match self {
            Status::BadRequest => 400,
            Status::Unauthorized => 401,
            Status::Forbidden => 403,
            Status::Conflict => 409,
        }
    }
}

/// The answer to a request that was refused.
#[derive(Debug, Clone)]
pub struct Refusal {
    pub status: Status,
    pub reason: String,
}

/// The answer in the abstract.
pub struct Refused {
    pub status: Status,
    pub reason: Seq<char>,
}

impl View for Refusal {
    type V = Refused;

    open spec fn view(&self) -> Refused {
        Refused { status: self.status, reason: self.reason@ }
    }
}

/// A request that is refused.
pub(crate) fn refuse(status: Status, reason: &str) -> (r: Refusal)
    ensures
        r@ == (Refused { status, reason: reason@ }),
{
    Refusal { status, reason: reason.to_owned() }
}

} // verus!
