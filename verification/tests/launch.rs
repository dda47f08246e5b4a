use drocsid::launch::{parse_command, peek_process_ctx, AppError, Command};

fn args(values: &[&str]) -> Vec<String> {
    values.iter().map(|value| (*value).to_string()).collect()
}

#[test]
fn parses_server_mode() {
    let command = parse_command(args(&["bin", "mode=server"])).unwrap();

    assert!(matches!(command, Command::Server));
}

#[test]
fn parses_client_mode_with_username() {
    let command = parse_command(args(&["bin", "mode=client", "username=alice"])).unwrap();

    assert!(matches!(
        command,
        Command::Client { username } if username == "alice"
    ));
}

#[test]
fn rejects_missing_mode() {
    let error = parse_command(args(&["bin", "username=alice"])).unwrap_err();

    assert!(matches!(error, AppError::MissingMode));
}

#[test]
fn rejects_missing_username_for_client_mode() {
    let error = parse_command(args(&["bin", "mode=client"])).unwrap_err();

    assert!(matches!(error, AppError::MissingUsername));
}

#[test]
fn rejects_blank_username_for_client_mode() {
    let error = parse_command(args(&["bin", "mode=client", "username=   "])).unwrap_err();

    assert!(matches!(error, AppError::MissingUsername));
}

#[test]
fn rejects_invalid_mode() {
    let error = parse_command(args(&["bin", "mode=invalid"])).unwrap_err();

    assert!(matches!(error, AppError::InvalidMode(mode) if mode == "invalid"));
}

#[test]
fn the_last_mode_and_username_win() {
    let command = parse_command(args(&[
        "bin",
        "mode=server",
        "username=bob",
        "mode=client",
        "username=carol",
    ]))
    .unwrap();
    assert!(matches!(command, Command::Client { username } if username == "carol"));
    let error = parse_command(args(&["bin", "mode=client", "username=a", "username= "])).unwrap_err();
    assert!(matches!(error, AppError::MissingUsername));
}

#[test]
fn peeks_at_the_last_mode_and_username() {
    let values = args(&["bin", "mode=client", "username=alice", "mode=tui"]);
    assert_eq!(peek_process_ctx(&values), ("tui", "alice"));
    assert_eq!(peek_process_ctx(&args(&["bin"])), ("", ""));
}
