//! Replication of a shared table of drawn entities between one authoritative
//! server and any number of clients over a byte stream.
//!
//! `codec` frames payloads with a length prefix and splits an incoming byte
//! stream back into payloads, `store` is the id-keyed entity table, `message`
//! lists what the two sides say to each other, `server`
//! and `client` hold the decisions of each role as state machines whose
//! actions the caller performs on the transport.

pub mod codec;
pub mod entity;
pub mod store;
pub mod message;
pub mod server;
pub mod client;
