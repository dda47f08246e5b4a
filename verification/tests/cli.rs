use drocsid::cli::{parse_command, parse_u64, CliError, Command};

fn args(values: &[&str]) -> Vec<String> {
    values.iter().map(|value| (*value).to_string()).collect()
}

#[test]
fn parses_server_with_optional_overrides() {
    let command = parse_command(args(&[
        "drocsid",
        "server",
        "--listen",
        "0.0.0.0:9000",
        "--latency-ms",
        "25",
    ]))
    .unwrap();

    assert!(matches!(
        command,
        Command::Server { listen, latency_ms }
            if listen.as_deref() == Some("0.0.0.0:9000") && latency_ms == Some(25)
    ));
}

#[test]
fn parses_server_without_overrides() {
    let command = parse_command(args(&["drocsid", "server"])).unwrap();

    assert!(matches!(
        command,
        Command::Server {
            listen: None,
            latency_ms: None
        }
    ));
}

#[test]
fn parses_client_with_connection_override() {
    let command = parse_command(args(&[
        "drocsid",
        "client",
        "--connect",
        "chat.example.com:7878",
        "--username",
        "alice",
    ]))
    .unwrap();

    assert!(matches!(
        command,
        Command::Client { username, connect }
            if username == "alice" && connect.as_deref() == Some("chat.example.com:7878")
    ));
}

#[test]
fn rejects_client_without_username() {
    assert!(parse_command(args(&["drocsid", "client"])).is_err());
}

#[test]
fn rejects_blank_username() {
    assert!(parse_command(args(&["drocsid", "client", "--username", "   "])).is_err());
}

#[test]
fn rejects_unknown_subcommand() {
    assert!(parse_command(args(&["drocsid", "unknown"])).is_err());
}

#[test]
fn option_values_may_follow_an_equals_sign() {
    let command = parse_command(args(&["drocsid", "client", "--username=bob"])).unwrap();
    assert!(matches!(
        command,
        Command::Client { username, connect: None } if username == "bob"
    ));
    let command = parse_command(args(&["drocsid", "server", "--latency-ms=+7"])).unwrap();
    assert!(matches!(
        command,
        Command::Server { listen: None, latency_ms: Some(7) }
    ));
}

#[test]
fn each_refusal_names_its_reason() {
    assert_eq!(
        parse_command(args(&["drocsid"])).unwrap_err(),
        CliError::MissingSubcommand
    );
    assert_eq!(
        parse_command(args(&["drocsid", "unknown"])).unwrap_err(),
        CliError::UnknownSubcommand
    );
    assert_eq!(
        parse_command(args(&["drocsid", "--help"])).unwrap_err(),
        CliError::HelpRequested
    );
    assert_eq!(
        parse_command(args(&["drocsid", "server", "-h"])).unwrap_err(),
        CliError::HelpRequested
    );
    assert_eq!(
        parse_command(args(&["drocsid", "server", "extra"])).unwrap_err(),
        CliError::UnexpectedArgument
    );
    assert_eq!(
        parse_command(args(&["drocsid", "server", "--username", "x"])).unwrap_err(),
        CliError::UnexpectedArgument
    );
    assert_eq!(
        parse_command(args(&["drocsid", "server", "--listen"])).unwrap_err(),
        CliError::MissingValue
    );
    assert_eq!(
        parse_command(args(&["drocsid", "server", "--listen", "a", "--listen", "b"])).unwrap_err(),
        CliError::DuplicateArgument
    );
    assert_eq!(
        parse_command(args(&["drocsid", "server", "--latency-ms", "soon"])).unwrap_err(),
        CliError::InvalidValue
    );
    assert_eq!(
        parse_command(args(&["drocsid", "client", "--username", "   "])).unwrap_err(),
        CliError::InvalidValue
    );
    assert_eq!(
        parse_command(args(&["drocsid", "client"])).unwrap_err(),
        CliError::MissingRequiredArgument
    );
}

#[test]
fn latency_values_read_as_u64() {
    assert_eq!(parse_u64("0"), Some(0));
    assert_eq!(parse_u64("+25"), Some(25));
    assert_eq!(parse_u64("18446744073709551615"), Some(u64::MAX));
    assert_eq!(parse_u64("18446744073709551616"), None);
    assert_eq!(parse_u64(""), None);
    assert_eq!(parse_u64("+"), None);
    assert_eq!(parse_u64("-1"), None);
    assert_eq!(parse_u64("1 "), None);
}
