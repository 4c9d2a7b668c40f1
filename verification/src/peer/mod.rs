//! A peer: its session with another peer, its messages, and its mailbox.
pub mod delivery;
pub mod laws;
pub mod model;
pub mod node;
pub mod rounds;
pub mod sessions;
pub mod stamp;
pub mod types;

pub use node::{check_listener, ConnectStep, Outgoing, PeerNode};
pub use stamp::Timestamp;
pub use types::{
    ChatMessage, NetworkHints, PeerError, PeerSnapshot, PullRequest, Refusal, Status, WireMessage,
};
