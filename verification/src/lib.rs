//! A minimal multi-client chat service layered over a reliable, ordered
//! message channel.
//!
//! The server keeps an authoritative registry of connected, initialized
//! clients; each client keeps a local mirror of that registry, seeded by a
//! snapshot and kept current by applying connection events in arrival order.
//! Every operation is specified by an exact state transition, and the
//! delivery-relevant laws (registry contents after any replay, snapshot
//! self-containment, silence towards unknown peers, per-peer order
//! preservation) are proved over those transitions.

pub mod app;
pub mod channel;
pub mod client;
pub mod messages;
pub mod model;
pub mod server;

pub use model::Addr;
pub use model::DisconnectReason;
