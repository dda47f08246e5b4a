//! The chat server's logic: its errors, admission by address, the message
//! history, the registry of connected clients with their outbound queues,
//! and the checks and steps of a client session.

pub mod admission;
pub mod error;
pub mod history;
pub mod line_protocol;
pub mod registry;
pub mod session;
