use std::sync::mpsc;

use drocsid::protocol::{encode_frame, parse_presence, Frame, FrameType};
use drocsid::server::error::ServerError;
use drocsid::server::history::{trim_newlines, MessageHistory};
use drocsid::server::registry::{
    PeerAddr, PeerIp, ServerState, MAX_CONNECTIONS_PER_IP, OUTBOUND_QUEUE_SIZE,
    PENDING_MESSAGES_LIMIT,
};
use drocsid::server::session::{
    announcement_frame, chat_content, handshake_username, join_message, leave_message,
    session_frame_header, MAX_USERNAME_BYTES,
};

fn local(port: u16) -> PeerAddr {
    PeerAddr {
        ip: PeerIp::V4(0x7f00_0001),
        port,
    }
}

fn frame_payloads(receiver: &mpsc::Receiver<Vec<u8>>) -> Vec<Vec<u8>> {
    receiver.try_iter().map(|frame| frame[6..].to_vec()).collect()
}

#[test]
fn message_history_evicts_oldest_entry_without_shifting_retained_entries() {
    let mut history = MessageHistory::new(2);

    history.record("first\n");
    history.record("second\n");
    history.record("third\n");

    assert_eq!(history.snapshot(), ["second", "third"]);
}

#[test]
fn server_history_snapshot_returns_trimmed_retained_messages_in_order() {
    let mut state = ServerState::new();
    let client_addr = local(40000);
    let (writer, _receiver) = mpsc::sync_channel(OUTBOUND_QUEUE_SIZE);

    let token = state.register_client(client_addr, writer).unwrap();
    for index in 0..=100 {
        state.record_message(&format!("message {index}\n"));
    }

    let (_, history) = state.history_snapshot(client_addr, &token).unwrap();

    assert_eq!(history.len(), 100);
    assert_eq!(history.first().unwrap(), "message 1");
    assert_eq!(history.last().unwrap(), "message 100");
}

#[test]
fn pending_clients_do_not_receive_live_broadcasts_before_history_replay() {
    let mut state = ServerState::new();
    let client_addr = local(40001);
    let (client_writer, client_stream) = mpsc::sync_channel(OUTBOUND_QUEUE_SIZE);

    let token = state.register_pending_client(client_addr, client_writer).unwrap();
    let (writer, _) = state.history_snapshot(client_addr, &token).unwrap();
    state.broadcast(b"live during history\n", None);

    assert!(client_stream.try_recv().is_err());

    writer.try_send(b"history\n".to_vec()).unwrap();
    state.mark_client_ready(client_addr, &token).unwrap();

    let lines: Vec<String> = client_stream
        .try_iter()
        .map(|bytes| String::from_utf8(bytes).unwrap())
        .collect();

    assert_eq!(lines, ["history\n", "live during history\n"]);
}

#[test]
fn broadcast_drops_a_client_when_its_outbound_queue_is_full() {
    let mut state = ServerState::new();
    let address = local(12345);
    let (writer, receiver) = mpsc::sync_channel(OUTBOUND_QUEUE_SIZE);

    let token = state.register_client(address, writer.clone()).unwrap();
    state.set_client_username(address, &token, "slow-client").unwrap();

    for _ in 0..OUTBOUND_QUEUE_SIZE {
        writer.try_send(b"already queued\n".to_vec()).unwrap();
    }

    state.broadcast(b"new message\n", None);

    assert_eq!(state.client_count(), 0);
    drop(receiver);
}

#[test]
fn stale_writer_cleanup_does_not_remove_a_replacement_client() {
    let mut state = ServerState::new();
    let address = local(12345);
    let (old_writer, _old_receiver) = mpsc::sync_channel(1);
    let (new_writer, _new_receiver) = mpsc::sync_channel(1);

    let old_token = state.register_client(address, old_writer).unwrap();
    state.set_client_username(address, &old_token, "replacement").unwrap();
    let new_token = state.register_client(address, new_writer).unwrap();
    state.set_client_username(address, &new_token, "current").unwrap();

    assert!(state.remove_client_if_current(address, &old_token));

    assert_eq!(state.client_count(), 1);
    assert_eq!(state.usernames(), ["current"]);
}

#[test]
fn session_cleanup_is_idempotent_and_updates_presence() {
    let mut state = ServerState::new();
    let address = local(40002);
    let (writer, _receiver) = mpsc::sync_channel(OUTBOUND_QUEUE_SIZE);
    let token = state.register_client(address, writer).unwrap();
    state.set_client_username(address, &token, "alice").unwrap();

    state.finish_session(address, "alice", &token, true).unwrap();
    state.finish_session(address, "alice", &token, true).unwrap();

    assert!(state.usernames().is_empty());
}

#[test]
fn leaving_is_announced_to_the_others_and_recorded() {
    let mut state = ServerState::new();
    let (alice_writer, _alice_stream) = mpsc::sync_channel(OUTBOUND_QUEUE_SIZE);
    let (bob_writer, bob_stream) = mpsc::sync_channel(OUTBOUND_QUEUE_SIZE);
    let alice = state.register_client(local(1), alice_writer).unwrap();
    state.set_client_username(local(1), &alice, "alice").unwrap();
    let bob = state.register_client(local(2), bob_writer).unwrap();
    state.set_client_username(local(2), &bob, "bob").unwrap();

    state.finish_session(local(1), "alice", &alice, true).unwrap();

    let payloads = frame_payloads(&bob_stream);
    assert_eq!(payloads.len(), 2);
    assert_eq!(payloads[0], b"alice has left the chat");
    assert_eq!(parse_presence(&payloads[1]), Some(vec!["bob".to_string()]));
    let (_, history) = state.history_snapshot(local(2), &bob).unwrap();
    assert_eq!(history, ["alice has left the chat"]);

    state.finish_session(local(2), "bob", &bob, false).unwrap();
    assert_eq!(state.client_count(), 0);
    assert!(state.history_snapshot(local(2), &bob).is_err());
}

#[test]
fn registrations_are_limited_per_address() {
    let mut state = ServerState::new();
    let mut receivers = Vec::new();
    for port in 0..MAX_CONNECTIONS_PER_IP {
        let (writer, receiver) = mpsc::sync_channel(1);
        receivers.push(receiver);
        state.register_client(local(port as u16), writer).unwrap();
    }
    let (writer, _receiver) = mpsc::sync_channel(1);
    assert!(matches!(
        state.register_client(local(99), writer),
        Err(ServerError::ConnectionLimitReached)
    ));
    let other = PeerAddr {
        ip: PeerIp::V6(1),
        port: 99,
    };
    let (writer, _other_receiver) = mpsc::sync_channel(1);
    assert!(state.register_client(other, writer).is_ok());
    assert_eq!(state.count_clients_from(PeerIp::V4(0x7f00_0001)), MAX_CONNECTIONS_PER_IP);
}

#[test]
fn unknown_registrations_are_refused() {
    let mut state = ServerState::new();
    let (writer, _receiver) = mpsc::sync_channel(1);
    let token = state.register_client(local(1), writer).unwrap();
    assert!(matches!(
        state.set_client_username(local(2), &token, "x"),
        Err(ServerError::UnknownClient)
    ));
    assert!(matches!(
        state.mark_client_ready(local(2), &token),
        Err(ServerError::UnknownClient)
    ));
    assert!(matches!(
        state.history_snapshot(local(2), &token),
        Err(ServerError::UnknownClient)
    ));
    assert!(!state.remove_client_if_current(local(2), &token));
    assert_eq!(state.client_count(), 1);
}

#[test]
fn pending_queue_overflow_drops_the_client() {
    let mut state = ServerState::new();
    let (writer, _receiver) = mpsc::sync_channel(1);
    state.register_pending_client(local(1), writer).unwrap();
    for _ in 0..PENDING_MESSAGES_LIMIT {
        assert!(!state.broadcast(b"m", None));
    }
    assert!(state.broadcast(b"m", None));
    assert_eq!(state.client_count(), 0);
}

#[test]
fn broadcast_skips_the_excluded_address() {
    let mut state = ServerState::new();
    let (a_writer, a_stream) = mpsc::sync_channel(4);
    let (b_writer, b_stream) = mpsc::sync_channel(4);
    state.register_client(local(1), a_writer).unwrap();
    state.register_client(local(2), b_writer).unwrap();
    assert!(!state.broadcast(b"hi", Some(local(1))));
    assert!(a_stream.try_recv().is_err());
    assert_eq!(b_stream.try_recv().unwrap(), b"hi");
}

#[test]
fn ready_marking_stops_at_a_full_queue_and_keeps_the_rest() {
    let mut state = ServerState::new();
    let (writer, receiver) = mpsc::sync_channel(1);
    let token = state.register_pending_client(local(1), writer).unwrap();
    state.broadcast(b"one", None);
    state.broadcast(b"two", None);
    assert!(matches!(
        state.mark_client_ready(local(1), &token),
        Err(ServerError::OutboundQueueFull)
    ));
    assert_eq!(receiver.try_recv().unwrap(), b"one");
    state.mark_client_ready(local(1), &token).unwrap();
    assert_eq!(receiver.try_recv().unwrap(), b"two");
    drop(receiver);
    let (writer, receiver) = mpsc::sync_channel(1);
    let token = state.register_pending_client(local(2), writer).unwrap();
    state.broadcast(b"three", Some(local(1)));
    drop(receiver);
    assert!(matches!(
        state.mark_client_ready(local(2), &token),
        Err(ServerError::OutboundWriterGone)
    ));
}

#[test]
fn presence_goes_to_every_client() {
    let mut state = ServerState::new();
    let (writer, stream) = mpsc::sync_channel(4);
    let token = state.register_client(local(1), writer).unwrap();
    state.set_client_username(local(1), &token, "alice").unwrap();
    state.broadcast_presence().unwrap();
    let payloads = frame_payloads(&stream);
    assert_eq!(parse_presence(&payloads[0]), Some(vec!["alice".to_string()]));
}

#[test]
fn a_session_replays_history_then_announces_the_join() {
    let mut state = ServerState::new();
    state.record_message("earlier\n");
    let (writer, stream) = mpsc::sync_channel(OUTBOUND_QUEUE_SIZE);
    let token = state.begin_session(local(7), writer, "carol").unwrap();
    assert_eq!(state.usernames(), ["carol"]);
    state.start_session(local(7), &token, "carol").unwrap();
    let payloads = frame_payloads(&stream);
    assert_eq!(payloads[0], b"earlier");
    assert_eq!(parse_presence(&payloads[1]), Some(vec!["carol".to_string()]));
    assert_eq!(payloads[2], b"@carol has entered the chat. Say hello!");
    let (_, history) = state.history_snapshot(local(7), &token).unwrap();
    assert_eq!(history, ["earlier", "@carol has entered the chat. Say hello!"]);

    state.accept_chat("carol", "10:15", "hi all").unwrap();
    let payloads = frame_payloads(&stream);
    assert_eq!(payloads, [b"[carol](10:15): hi all".to_vec()]);

    state.accept_chat_now("carol", "again").unwrap();
    let payloads = frame_payloads(&stream);
    let line = String::from_utf8(payloads[0].clone()).unwrap();
    assert!(line.starts_with("[carol]("));
    assert!(line.ends_with("): again"));
    let time = &line[8..13];
    assert_eq!(time.as_bytes()[2], b':');
    assert!(time.chars().enumerate().all(|(i, c)| i == 2 || c.is_ascii_digit()));
}

#[test]
fn starting_an_unknown_session_is_refused() {
    let mut state = ServerState::new();
    let (writer, _stream) = mpsc::sync_channel(1);
    let token = state.register_client(local(1), writer).unwrap();
    assert!(matches!(
        state.start_session(local(2), &token, "x"),
        Err(ServerError::UnknownClient)
    ));
    assert!(matches!(
        state.replay_history(local(2), &token),
        Err(ServerError::UnknownClient)
    ));
}

#[test]
fn history_longer_than_the_queue_fails_the_replay() {
    let mut state = ServerState::new();
    state.record_message("a");
    state.record_message("b");
    let (writer, _stream) = mpsc::sync_channel(1);
    let token = state.register_pending_client(local(3), writer).unwrap();
    assert!(matches!(
        state.replay_history(local(3), &token),
        Err(ServerError::OutboundQueueFull)
    ));
}

#[test]
fn chat_too_long_for_a_frame_is_refused() {
    let mut state = ServerState::new();
    let long = "x".repeat(20000);
    assert!(matches!(
        state.accept_chat("u", "00:00", &long),
        Err(ServerError::MessageTooLong)
    ));
    let (writer, _stream) = mpsc::sync_channel(1);
    let token = state.register_client(local(1), writer).unwrap();
    assert!(matches!(
        state.finish_session(local(1), &long, &token, true),
        Err(ServerError::MessageTooLong)
    ));
    assert_eq!(state.client_count(), 0);
}

fn handshake(payload: &[u8]) -> Result<Option<Frame>, ServerError> {
    Ok(Some(Frame {
        version: 1,
        kind: FrameType::Handshake,
        payload: payload.to_vec(),
    }))
}

#[test]
fn handshake_names_the_trimmed_user() {
    assert_eq!(handshake_username(handshake(b"alice")).unwrap(), "alice");
    assert_eq!(handshake_username(handshake(b"  bob ")).unwrap(), "bob");
    assert!(matches!(
        handshake_username(handshake(b" bob\t")),
        Err(ServerError::UsernameContainsControlCharacters)
    ));
}

#[test]
fn handshake_refusals_name_their_reason() {
    assert!(matches!(
        handshake_username(Ok(None)),
        Err(ServerError::EmptyHandshakeUsername)
    ));
    assert!(matches!(
        handshake_username(Err(ServerError::MessageTooLong)),
        Err(ServerError::UsernameTooLong)
    ));
    assert!(matches!(
        handshake_username(Err(ServerError::TruncatedProtocolFrame)),
        Err(ServerError::TruncatedProtocolFrame)
    ));
    assert!(matches!(
        handshake_username(Ok(Some(Frame {
            version: 1,
            kind: FrameType::Chat,
            payload: b"alice".to_vec(),
        }))),
        Err(ServerError::InvalidFrameType)
    ));
    assert!(matches!(
        handshake_username(handshake(&[0xff])),
        Err(ServerError::InvalidUtf8)
    ));
    assert!(matches!(
        handshake_username(handshake(&[b'x'; 33])),
        Err(ServerError::UsernameTooLong)
    ));
    assert_eq!(
        handshake_username(handshake(&[b'x'; MAX_USERNAME_BYTES])).unwrap().len(),
        MAX_USERNAME_BYTES
    );
    assert!(matches!(
        handshake_username(handshake(b"   ")),
        Err(ServerError::EmptyHandshakeUsername)
    ));
    assert!(matches!(
        handshake_username(handshake(b"al\x1bice")),
        Err(ServerError::UsernameContainsControlCharacters)
    ));
}

#[test]
fn session_headers_check_length_then_version_then_type() {
    assert!(matches!(
        session_frame_header(&[1, 2, 0, 0, 0, 5]),
        Ok((FrameType::Chat, 5))
    ));
    assert!(matches!(
        session_frame_header(&[9, 99, 0, 0, 0x40, 1]),
        Err(ServerError::MessageTooLong)
    ));
    assert!(matches!(
        session_frame_header(&[9, 99, 0, 0, 0x40, 0]),
        Err(ServerError::UnsupportedProtocolVersion)
    ));
    assert!(matches!(
        session_frame_header(&[1, 99, 0, 0, 0, 0]),
        Err(ServerError::UnknownProtocolFrameType)
    ));
}

#[test]
fn chat_frames_give_their_text_and_blank_ones_are_skipped() {
    let chat = |payload: &[u8]| Frame {
        version: 1,
        kind: FrameType::Chat,
        payload: payload.to_vec(),
    };
    assert_eq!(chat_content(chat(b" hi ")).unwrap(), Some(" hi ".to_string()));
    assert_eq!(chat_content(chat(b" \n ")).unwrap(), None);
    assert!(matches!(chat_content(chat(&[0xc3])), Err(ServerError::InvalidUtf8)));
    assert!(matches!(
        chat_content(Frame {
            version: 1,
            kind: FrameType::Presence,
            payload: vec![0, 0],
        }),
        Err(ServerError::InvalidFrameType)
    ));
}

#[test]
fn announcements_are_framed_without_trailing_white_space() {
    assert_eq!(join_message("dave"), "@dave has entered the chat. Say hello!\n");
    assert_eq!(leave_message("dave"), "dave has left the chat\n");
    assert_eq!(
        announcement_frame("dave has left the chat\n").unwrap(),
        encode_frame(FrameType::Chat, b"dave has left the chat").unwrap()
    );
    assert!(matches!(
        announcement_frame(&"y".repeat(20000)),
        Err(ServerError::MessageTooLong)
    ));
}

#[test]
fn trailing_newlines_are_trimmed_before_recording() {
    assert_eq!(trim_newlines("a\n\n"), "a");
    assert_eq!(trim_newlines("a\r\n"), "a\r");
    assert_eq!(trim_newlines("\n"), "");
}

use drocsid::protocol::FRAME_HEADER_BYTES;
use drocsid::server::admission::{bind_is_not_loopback, IpAdmission};

/// An IPv4 address from its four octets.
fn v4(a: u8, b: u8, c: u8, d: u8) -> PeerIp {
    PeerIp::V4(u32::from_be_bytes([a, b, c, d]))
}

/// Reads one frame off `bytes` the way a session does.
fn read_session_frame(bytes: &[u8]) -> Result<Option<Frame>, ServerError> {
    if bytes.is_empty() {
        return Ok(None);
    }
    if bytes.len() < FRAME_HEADER_BYTES {
        return Err(ServerError::TruncatedProtocolFrame);
    }
    let (kind, payload_len) = session_frame_header(&bytes[..FRAME_HEADER_BYTES])?;
    let payload = bytes
        .get(FRAME_HEADER_BYTES..FRAME_HEADER_BYTES + payload_len)
        .ok_or(ServerError::TruncatedProtocolFrame)?;
    Ok(Some(Frame {
        version: bytes[0],
        kind,
        payload: payload.to_vec(),
    }))
}

#[test]
fn accepts_a_valid_handshake_without_allocating_a_session_thread() {
    let bytes = encode_frame(FrameType::Handshake, b"alice").unwrap();

    assert_eq!(handshake_username(read_session_frame(&bytes)).unwrap(), "alice");
}

#[test]
fn rejects_an_oversized_handshake_as_a_username_error() {
    let bytes = encode_frame(FrameType::Handshake, &[b'x'; 33]).unwrap();

    assert!(matches!(
        handshake_username(read_session_frame(&bytes)),
        Err(ServerError::UsernameTooLong)
    ));
}

#[test]
fn handshake_frames_over_the_payload_limit_name_a_long_user() {
    let mut bytes = vec![1, 1, 0, 0, 0x40, 1];
    bytes.extend(vec![b'x'; 16385]);
    assert!(matches!(
        handshake_username(read_session_frame(&bytes)),
        Err(ServerError::UsernameTooLong)
    ));
}

#[test]
fn recognizes_non_loopback_bind_addresses() {
    assert!(!bind_is_not_loopback(v4(127, 0, 0, 1)));
    assert!(!bind_is_not_loopback(PeerIp::V6(1)));
    assert!(bind_is_not_loopback(v4(0, 0, 0, 0)));
    assert!(bind_is_not_loopback(PeerIp::V6(0)));
}

#[test]
fn the_whole_loopback_block_counts_as_loopback() {
    assert!(!bind_is_not_loopback(v4(127, 255, 0, 9)));
    assert!(bind_is_not_loopback(v4(128, 0, 0, 1)));
    assert!(bind_is_not_loopback(PeerIp::V6(0xffff_7f00_0001)));
}
use drocsid::io_types::IoKind;
use drocsid::server::line_protocol::{
    line_chat_message, line_handshake_username, line_join_message, line_leave_message,
    line_session_step, LineAction, LineRead, LineSession,
};

#[test]
fn admission_limits_pending_connections_per_ip() {
    let mut admission = IpAdmission::new();
    let ip = PeerIp::V4(0x7f00_0001);
    for _ in 0..MAX_CONNECTIONS_PER_IP {
        assert!(admission.try_admit(ip));
    }
    assert!(!admission.try_admit(ip));
    for _ in 0..MAX_CONNECTIONS_PER_IP {
        admission.release(ip);
    }
    assert!(admission.try_admit(ip));
}

#[test]
fn line_session_names_relays_and_disconnects() {
    let (s, a) = line_session_step(LineSession::AwaitingName, LineRead::Bytes(b"  alice\n".to_vec()));
    assert!(matches!(&a, LineAction::Announce(t) if t == "alice has entered the chat. Say hello!\n"));
    assert!(matches!(&s, LineSession::Chatting(n) if n == "alice"));
    let (s, a) = line_session_step(s, LineRead::Bytes(b"hi \xff\n".to_vec()));
    assert!(matches!(&a, LineAction::Relay(t) if t == "hi \u{fffd}\n"));
    let (s, a) = line_session_step(s, LineRead::Failed(IoKind::ConnectionReset));
    assert!(matches!(&a, LineAction::Disconnect(t) if t == "alice has left the chat\n"));
    assert!(matches!(s, LineSession::Ended));
}

#[test]
fn line_session_ends_on_empty_reads_and_failures() {
    let (s, a) = line_session_step(LineSession::AwaitingName, LineRead::Eof);
    assert!(matches!((s, a), (LineSession::Ended, LineAction::Remove)));
    let (s, a) = line_session_step(LineSession::AwaitingName, LineRead::Bytes(Vec::new()));
    assert!(matches!((s, a), (LineSession::Ended, LineAction::Remove)));
    let (s, a) = line_session_step(LineSession::AwaitingName, LineRead::Bytes(b" \r\n".to_vec()));
    assert!(matches!((s, a), (LineSession::Ended, LineAction::RefuseEmptyName)));
    let (s, a) = line_session_step(LineSession::AwaitingName, LineRead::Failed(IoKind::ConnectionReset));
    assert!(matches!((s, a), (LineSession::Ended, LineAction::Fail(IoKind::ConnectionReset))));
    let bob = || LineSession::Chatting("bob".to_string());
    let (s, a) = line_session_step(bob(), LineRead::Eof);
    assert!(matches!(&a, LineAction::Disconnect(t) if t == "bob has left the chat\n"));
    assert!(matches!(s, LineSession::Ended));
    let (_, a) = line_session_step(bob(), LineRead::Bytes(Vec::new()));
    assert!(matches!(&a, LineAction::Disconnect(t) if t == "bob has left the chat\n"));
    let (s, a) = line_session_step(bob(), LineRead::Failed(IoKind::Other));
    assert!(matches!((s, a), (LineSession::Ended, LineAction::Fail(IoKind::Other))));
    let (s, a) = line_session_step(bob(), LineRead::Failed(IoKind::BrokenPipe));
    assert!(matches!(&a, LineAction::Disconnect(_)));
    assert!(matches!(s, LineSession::Ended));
}

#[test]
fn admission_limits_connections_per_address() {
    let mut admission = IpAdmission::new();
    let ip = PeerIp::V4(0x7f00_0001);
    for _ in 0..MAX_CONNECTIONS_PER_IP {
        assert!(admission.try_admit(ip));
    }
    assert!(!admission.try_admit(ip));
    assert!(admission.try_admit(PeerIp::V6(1)));
    assert_eq!(admission.held_by(ip), MAX_CONNECTIONS_PER_IP);
    admission.release(ip);
    assert!(admission.try_admit(ip));
}

#[test]
fn releasing_an_admission_undoes_it() {
    let mut admission = IpAdmission::new();
    let ip = PeerIp::V4(10);
    assert!(admission.try_admit(ip));
    admission.release(ip);
    assert_eq!(admission.held_by(ip), 0);
    admission.release(ip);
    assert_eq!(admission.held_by(ip), 0);
    assert!(admission.try_admit(ip));
    assert_eq!(admission.held_by(ip), 1);
}

#[test]
fn line_protocol_names_and_announcements() {
    assert_eq!(line_handshake_username(b"  alice \n").as_deref(), Some("alice"));
    assert_eq!(line_handshake_username(b" \r\n"), None);
    assert_eq!(line_handshake_username(b"\xffbob"), Some("\u{fffd}bob".to_string()));
    assert_eq!(line_join_message("al"), "al has entered the chat. Say hello!\n");
    assert_eq!(line_leave_message("al"), "al has left the chat\n");
    assert_eq!(line_chat_message("al", "  hi there \n"), "[al]: hi there\n");
}

#[test]
fn delivering_to_one_client_reaches_only_its_queue() {
    let mut state = ServerState::new();
    let (writer, receiver) = mpsc::sync_channel(1);
    let token = state.register_client(local(1), writer).unwrap();
    let (other_writer, other_receiver) = mpsc::sync_channel(1);
    state.register_client(local(2), other_writer).unwrap();
    assert!(state.deliver_to(local(1), &token, b"one".to_vec()).is_ok());
    assert!(matches!(
        state.deliver_to(local(1), &token, b"two".to_vec()),
        Err(ServerError::OutboundQueueFull)
    ));
    assert!(matches!(
        state.deliver_to(local(2), &token, b"x".to_vec()),
        Err(ServerError::UnknownClient)
    ));
    assert_eq!(receiver.try_iter().collect::<Vec<_>>(), vec![b"one".to_vec()]);
    assert!(other_receiver.try_recv().is_err());
    drop(receiver);
    assert!(matches!(
        state.deliver_to(local(1), &token, b"three".to_vec()),
        Err(ServerError::OutboundWriterGone)
    ));
}
