//! Connection settings shared by the server and the client.

use std::time::Duration;
use vstd::prelude::*;
use vstd::string::*;

verus! {

/// The address the server listens on by default.
pub const DEFAULT_SERVER_BIND_ADDR: &'static str = "127.0.0.1:7878";

/// The address clients connect to by default.
pub const DEFAULT_SERVER_CONNECT_ADDR: &'static str = "127.0.0.1:7878";

/// The artificial delay, in milliseconds, the server waits by default.
pub const DEFAULT_SERVER_SIMULATED_LATENCY_MS: u64 = 0;

/// A name for what `Duration::from_millis` returns.
pub uninterp spec fn duration_from_millis(millis: u64) -> Duration;

/// Calls `Duration::from_millis`; the result is named by the argument.
#[verifier::external_body]
fn duration_of_millis(ms: u64) -> (r: Duration)
    ensures
        r == duration_from_millis(ms),
{
    Duration::from_millis(ms)
}

/// Where the server listens, where clients connect, and how long the server
/// waits before it broadcasts a message.
pub struct ServerConfig {
    pub bind_addr: String,
    pub connect_addr: String,
    pub simulated_latency: Duration,
}

/// The text `value` holds, or `default` when it holds nothing.
pub open spec fn text_or(value: Option<String>, default: Seq<char>) -> Seq<char> {
    match value {
        Some(s) => s@,
        None => default,
    }
}

/// `value`, or the text of `default` when there is none: a setting that was
/// given, or its default.
pub fn setting_or(value: Option<String>, default: &str) -> (r: String)
    ensures
        r@ == text_or(value, default@),
{
    match value {
        Some(s) => s,
        None => default.to_owned(),
    }
}

impl ServerConfig {
    /// The configuration of a server, with optional overrides of the listen
    /// address and of the simulated latency.
    pub fn for_server(listen_addr: Option<String>, latency_ms: Option<u64>) -> (r: ServerConfig)
        ensures
            r.bind_addr@ == text_or(listen_addr, DEFAULT_SERVER_BIND_ADDR@),
            r.connect_addr@ == DEFAULT_SERVER_CONNECT_ADDR@,
            r.simulated_latency == duration_from_millis(
                match latency_ms {
                    Some(ms) => ms,
                    None => DEFAULT_SERVER_SIMULATED_LATENCY_MS,
                },
            ),
    {
        let latency = match latency_ms {
            Some(ms) => ms,
            None => DEFAULT_SERVER_SIMULATED_LATENCY_MS,
        };
        ServerConfig {
            bind_addr: setting_or(listen_addr, DEFAULT_SERVER_BIND_ADDR),
            connect_addr: DEFAULT_SERVER_CONNECT_ADDR.to_owned(),
            simulated_latency: duration_of_millis(latency),
        }
    }

    /// The configuration of a client, with an optional override of the
    /// server address.
    pub fn for_client(connect_addr: Option<String>) -> (r: ServerConfig)
        ensures
            r.bind_addr@ == DEFAULT_SERVER_BIND_ADDR@,
            r.connect_addr@ == text_or(connect_addr, DEFAULT_SERVER_CONNECT_ADDR@),
            r.simulated_latency == duration_from_millis(DEFAULT_SERVER_SIMULATED_LATENCY_MS),
    {
        ServerConfig {
            bind_addr: DEFAULT_SERVER_BIND_ADDR.to_owned(),
            connect_addr: setting_or(connect_addr, DEFAULT_SERVER_CONNECT_ADDR),
            simulated_latency: duration_of_millis(DEFAULT_SERVER_SIMULATED_LATENCY_MS),
        }
    }
}

} // verus!
