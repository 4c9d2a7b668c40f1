//! Encrypted chat between two peers, without a server between them.
pub mod crypto;
pub mod net;
pub mod peer;
pub mod text;
