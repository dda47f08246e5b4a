use std::time::Duration;

use drocsid::config::{
    setting_or, ServerConfig, DEFAULT_SERVER_BIND_ADDR, DEFAULT_SERVER_CONNECT_ADDR,
    DEFAULT_SERVER_SIMULATED_LATENCY_MS,
};

#[test]
fn default_server_config_values_are_stable() {
    let config = ServerConfig::for_server(None, None);

    assert_eq!(config.bind_addr, "127.0.0.1:7878");
    assert_eq!(config.connect_addr, "127.0.0.1:7878");
    assert_eq!(config.simulated_latency, Duration::from_millis(0));
}

#[test]
fn applies_server_overrides() {
    let config = ServerConfig::for_server(Some("127.0.0.1:9000".to_string()), Some(25));

    assert_eq!(config.bind_addr, "127.0.0.1:9000");
    assert_eq!(config.simulated_latency, Duration::from_millis(25));
}

#[test]
fn applies_client_connection_override() {
    let config = ServerConfig::for_client(Some("chat.example.com:7878".to_string()));

    assert_eq!(config.connect_addr, "chat.example.com:7878");
}

#[test]
fn client_config_keeps_the_defaults_it_is_not_given() {
    let config = ServerConfig::for_client(None);
    assert_eq!(config.bind_addr, DEFAULT_SERVER_BIND_ADDR);
    assert_eq!(config.connect_addr, DEFAULT_SERVER_CONNECT_ADDR);
    assert_eq!(
        config.simulated_latency,
        Duration::from_millis(DEFAULT_SERVER_SIMULATED_LATENCY_MS)
    );
}

#[test]
fn latency_is_counted_in_milliseconds() {
    let config = ServerConfig::for_server(None, Some(1500));
    assert_eq!(config.simulated_latency, Duration::new(1, 500_000_000));
    assert_eq!(config.connect_addr, "127.0.0.1:7878");
}

#[test]
fn a_given_setting_wins_over_its_default() {
    assert_eq!(setting_or(Some("x:1".to_string()), "y:2"), "x:1");
    assert_eq!(setting_or(None, "y:2"), "y:2");
}
