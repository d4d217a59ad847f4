//! Core of a Scuttlebutt-style gossip engine: per-node versioned key-value
//! state, digests, MTU-bounded deltas, and their reconciliation.
pub mod assoc;
pub mod key_order;
pub mod types;
pub mod node_state;
pub mod scuttle;
pub mod delta;
pub mod digest;
pub mod cluster_state;
pub mod laws;
