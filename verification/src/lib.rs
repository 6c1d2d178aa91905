//! A verified swarm coordination core for a decentralized peer runtime.
//!
//! The crate unifies a Kademlia-style DHT query engine, a publish/subscribe
//! engine with content-addressed deduplication, and local peer discovery
//! into one composed behaviour with a single poll point.  Transport
//! establishment, wire encoding and message signing are collaborators
//! outside this crate: the core consumes their results as plain values.

pub mod bytes;
pub mod cli;
pub mod composer;
pub mod pubsub;
pub mod query;
pub mod routing;
