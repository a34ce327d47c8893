//! The entry gate of a WebSocket messaging service: the acceptor that binds
//! and dispatches connections, and the single-shot token handshake that each
//! connection passes before it may take part.
//!
//! Everything here is a decision: which step follows which event, what is
//! sent to a peer, and when a connection is handed on. Sockets, tasks and
//! channels belong to the caller, which performs the actions that these
//! state machines return and reports back what happened.

pub mod json;
pub mod envelope;
pub mod connection;
pub mod server;
pub mod concurrency;
