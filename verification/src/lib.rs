//! Core of a local-network peer-to-peer chat: flood-based publish/subscribe
//! with peer discovery, liveness probing, and a single event-dispatch step.
//!
//! The crate is organised leaf-first:
//! - [`codec`]: the wire format for application messages, with a proved
//!   encode/decode round trip;
//! - [`engine`]: the gossip dissemination engine — topic subscriptions, the
//!   partial view of discovered peers, the bounded deduplication cache, and
//!   the publish / receive transitions;
//! - [`discovery`]: presence tracking driven by periodic announcements, with
//!   join/leave events emitted exactly once per presence interval;
//! - [`liveness`]: per-connection keep-alive probing and timeout detection;
//! - [`node`]: the node state tying the pieces together, consumed by a host
//!   event loop through one tagged event type and one dispatch function.

pub mod codec;
pub mod discovery;
pub mod engine;
pub mod liveness;
pub mod node;
