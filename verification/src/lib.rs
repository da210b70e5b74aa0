//! Core of a line-oriented, length-prefixed request/response protocol server:
//! a binary frame codec, per-connection buffering, and the coordination rules
//! for graceful shutdown of a concurrent accept loop.
//!
//! The codec ([`frame`]) turns a byte stream into discrete frames and back;
//! [`laws`] proves that the two directions invert each other and that a frame
//! split across deliveries decodes as if delivered whole; [`connection`]
//! owns one connection's buffers; [`server`] holds the accept-retry policy
//! and the shutdown state machine that drains every live handler before the
//! server stops.

pub mod connection;
pub mod frame;
pub mod laws;
pub mod server;
