//! A small terminal chat system: its wire protocol, the client's chat state,
//! the server's client registry and history, and command-line parsing.

pub mod text;
pub mod protocol;
pub mod client;
pub mod clock;
pub mod config;
pub mod io_types;
pub mod launch;
pub mod cli;
pub mod server;
