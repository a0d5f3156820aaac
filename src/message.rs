//! The messages of the replication protocol.

use crate::entity::Entity;
use vstd::prelude::*;

verus! {

/// One protocol message; exactly one variant is active.
#[derive(Debug, Clone, PartialEq)]
pub enum Message {
    /// One entity, created or updated.
    NewEntity(Entity),
    /// A full snapshot that replaces the receiver's table.
    AllEntities(Vec<Entity>),
    /// Asks the peer for an `AllEntities` snapshot.
    RequestAllEntities,
}

/// A message to be written to one connection.
#[derive(Debug, Clone, PartialEq)]
pub struct Outgoing {
    pub to: u64,
    pub message: Message,
}

/// The connections that a list of outgoing messages goes to, in order.
pub open spec fn targets(out: Seq<Outgoing>) -> Seq<u64> {
    out.map_values(|o: Outgoing| o.to)
}

} // verus!
