//! A decentralized peer-discovery subsystem: a node generates a persistent
//! identity, joins an overlay network through a bootstrap node, and tracks
//! other participants in a Kademlia-style routing table keyed by XOR distance.
//!
//! The transport layer (dialing, connection events, liveness pings) is an
//! external collaborator; this crate holds the verified core: identity and
//! distance computation, the routing table with its capacity and eviction
//! rules, and the discovery engine that turns transport events into routing
//! updates and follow-up actions.

pub mod id;
pub mod record;
pub mod table;
pub mod identity;
pub mod engine;
