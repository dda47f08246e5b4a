//! The chat client: its session state, what it does with key presses and
//! submitted lines, how it turns what the server sends into events, and
//! what its screen shows.

pub mod app;
pub mod input;
pub mod network;
pub mod view;
