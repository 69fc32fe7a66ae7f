//! A verified datagram RPC library for a small flight-reservation service.
//!
//! The crate provides, with machine-checked contracts:
//! - a non-recursive JSON-subset codec working on byte vectors (`json`,
//!   `encode`, `decode`), with a proved encode/decode round trip,
//! - the request/response envelope and its wire form (`envelope`, `body`),
//! - the client-side receive/timeout/retry state machine (`consumer`),
//! - the server-side dispatcher and handlers over an in-memory
//!   reservation store (`store`, `handler`), and
//! - the publish/subscribe bus and monitor-session state machine (`monitor`).
//!
//! Everything that performs input/output (sockets, timers, the command
//! line) lives outside this crate and drives these functions with plain
//! values.

pub mod body;
pub mod consumer;
pub mod decode;
pub mod encode;
pub mod envelope;
pub mod handler;
pub mod json;
pub mod monitor;
pub mod roundtrip;
pub mod store;

pub use json::DecNumber;
pub use json::JsonNode;
pub use json::JsonVal;
