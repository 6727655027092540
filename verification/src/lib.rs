//! Verified core of wicara, a peer-to-peer chat with an untrusted mailbox hub.

pub mod bytes;
pub mod codec;
pub mod crypto;
pub mod e2e;
pub mod files;
pub mod hub;
pub mod hub_server;
pub mod identity;
pub mod journeys;
pub mod keys;
pub mod room;
pub mod session;
pub mod store;
pub mod table;
pub mod text;
pub mod ui;
pub mod vault;
pub mod wire;
