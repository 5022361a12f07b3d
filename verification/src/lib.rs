//! Replicated transaction log for a SpacetimeDB-style datastore on top of OmniPaxos:
//! the transaction data model, the durability layer's view of the replicated log,
//! the node's leader-tracking and replay decisions, and the per-node connection table.

pub mod bonustask;
pub mod connections;
pub mod datastore;
pub mod durability;
pub mod node;
