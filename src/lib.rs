//! A request/response multiplexer for a correlation-id routed binary protocol.
//!
//! The session logic is a state machine: the tasks that own the byte stream
//! hand it events (a write finished, a frame arrived, a tick passed) and
//! carry out the actions it answers with (write these bytes, wake these
//! callers, shut the writer down).

pub mod frame;
pub mod session;
pub mod laws;
pub mod raw_socket;
pub mod peer_expiry;
