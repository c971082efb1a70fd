//! Core of a peer-to-peer gossip overlay: Plumtree dissemination over a
//! HyParView + SWIM membership substrate, with the small data types the
//! surrounding tools share.
//!
//! - `types`: peer, topic and message identifiers, headers, kind and stream bytes.
//! - `swim`: the failure detector.
//! - `membership`: the active/passive overlay views, joins, shuffles, healing.
//! - `message_id`, `cache`, `topic`, `pubsub`: message ids, the per-topic message
//!   cache, the per-topic Plumtree state machine, and the multi-topic engine.
//! - `wire`: the envelope, id-list and frame encodings.
//! - `peer_cache`, `config`, `roles`, `identity`, `presence`, `crdt`: the bookkeeping and
//!   value types of the layers around the core.
//!
//! Every handler is a state transition that returns the actions (sends,
//! deliveries) for its caller to perform; time is passed in as milliseconds.

pub mod types;
pub mod swim;
pub mod peers;
pub mod membership;
pub mod message_id;
pub mod cache;
pub mod topic;
pub mod pubsub;
pub mod wire;
pub mod peer_cache;
pub mod config;
pub mod roles;
pub mod identity;
pub mod crdt;
pub mod presence;
