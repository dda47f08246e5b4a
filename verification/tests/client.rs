use std::sync::mpsc;

use drocsid::client::app::{ChatApp, MessageState};
use drocsid::client::network::{
    frame_event, process_frame, EventSender, LineReader, NetworkEvent, NETWORK_EVENT_CAPACITY,
};
use drocsid::protocol::{encode_presence, Frame, FrameType};

fn texts(app: &ChatApp) -> Vec<(String, MessageState)> {
    app.messages
        .iter()
        .map(|message| (message.text.clone(), message.state))
        .collect()
}

fn frame(kind: FrameType, payload: &[u8]) -> Frame {
    Frame {
        version: 1,
        kind,
        payload: payload.to_vec(),
    }
}

#[test]
fn event_channel_is_bounded() {
    let (tx, rx) = mpsc::sync_channel(NETWORK_EVENT_CAPACITY);

    for _ in 0..NETWORK_EVENT_CAPACITY {
        tx.try_send(NetworkEvent::Message("message".to_string()))
            .unwrap();
    }

    assert!(matches!(
        tx.try_send(NetworkEvent::Message("overflow".to_string())),
        Err(mpsc::TrySendError::Full(_))
    ));
    drop(rx);
}

#[test]
fn disconnects_on_invalid_chat_utf8() {
    let (tx, rx) = mpsc::sync_channel(NETWORK_EVENT_CAPACITY);
    let mut tx = EventSender::new(tx);
    assert!(!process_frame(
        Frame {
            version: 1,
            kind: FrameType::Chat,
            payload: vec![0xff],
        },
        &mut tx,
    ));
    assert!(matches!(
        rx.recv().unwrap(),
        NetworkEvent::Disconnected(reason) if reason == "server sent invalid UTF-8 chat payload"
    ));
}

#[test]
fn disconnects_on_malformed_presence_payload() {
    let (tx, rx) = mpsc::sync_channel(NETWORK_EVENT_CAPACITY);
    let mut tx = EventSender::new(tx);
    assert!(!process_frame(
        Frame {
            version: 1,
            kind: FrameType::Presence,
            payload: vec![0, 1, 0],
        },
        &mut tx,
    ));
    assert!(matches!(
        rx.recv().unwrap(),
        NetworkEvent::Disconnected(reason) if reason == "server sent an invalid presence payload"
    ));
}

#[test]
fn chat_and_presence_frames_become_events() {
    let (tx, rx) = mpsc::sync_channel(NETWORK_EVENT_CAPACITY);
    let mut tx = EventSender::new(tx);
    assert!(process_frame(frame(FrameType::Chat, b"[a](1:2): hi"), &mut tx));
    assert!(process_frame(frame(FrameType::Chat, b"   "), &mut tx));
    let presence = encode_presence(&["a".to_string(), "b".to_string()]).unwrap();
    assert!(process_frame(frame(FrameType::Presence, &presence[6..]), &mut tx));
    assert!(!process_frame(frame(FrameType::Handshake, b"x"), &mut tx));
    let events: Vec<NetworkEvent> = rx.try_iter().collect();
    assert_eq!(events.len(), 3);
    assert!(matches!(&events[0], NetworkEvent::Message(m) if m == "[a](1:2): hi"));
    assert!(matches!(&events[1], NetworkEvent::UserList(u) if u == &["a", "b"]));
    assert!(matches!(
        &events[2],
        NetworkEvent::Disconnected(r) if r == "server sent an unexpected handshake frame"
    ));
}

#[test]
fn blank_chat_frames_raise_nothing() {
    let (event, keep) = frame_event(frame(FrameType::Chat, b"\n\t "));
    assert!(event.is_none());
    assert!(keep);
}

#[test]
fn lines_are_cut_at_newlines_across_reads() {
    let mut reader = LineReader::new();
    let events = reader.push_text("hel");
    assert!(events.is_empty());
    let events = reader.push_text("lo\n__users__:a, b\n\n  \nrest");
    assert_eq!(events.len(), 2);
    assert!(matches!(&events[0], NetworkEvent::Message(m) if m == "hello"));
    assert!(matches!(&events[1], NetworkEvent::UserList(u) if u == &["a", "b"]));
    let events = reader.finish();
    assert_eq!(events.len(), 2);
    assert!(matches!(&events[0], NetworkEvent::Message(m) if m == "rest"));
    assert!(matches!(&events[1], NetworkEvent::Disconnected(r) if r == "server disconnected"));
}

#[test]
fn undecodable_bytes_become_replacement_characters() {
    let mut reader = LineReader::new();
    let events = reader.push_bytes(b"caf\xc3\xa9 \xff\n");
    assert_eq!(events.len(), 1);
    assert!(matches!(&events[0], NetworkEvent::Message(m) if m == "café \u{fffd}"));
    let events = reader.finish();
    assert_eq!(events.len(), 1);
}

#[test]
fn new_app_greets_and_lists_its_user() {
    let app = ChatApp::new("alice", "127.0.0.1:7878");
    assert_eq!(
        texts(&app),
        [
            ("[system] Connected to 127.0.0.1:7878".to_string(), MessageState::Confirmed),
            ("[system] Type a message and press Enter.".to_string(), MessageState::Confirmed),
        ]
    );
    assert_eq!(app.connected_users, ["alice"]);
    assert!(app.connected);
    assert!(!app.has_exit_notice());
}

#[test]
fn echoed_messages_confirm_the_oldest_pending_one() {
    let mut app = ChatApp::new("alice", "srv");
    app.push_message("hi".to_string(), MessageState::Pending);
    app.push_message("hi".to_string(), MessageState::Pending);
    app.receive_message("hi".to_string());
    let log = texts(&app);
    assert_eq!(log[2], ("hi".to_string(), MessageState::Confirmed));
    assert_eq!(log[3], ("hi".to_string(), MessageState::Pending));
    app.receive_message("other".to_string());
    assert_eq!(texts(&app)[4], ("other".to_string(), MessageState::Confirmed));
}

#[test]
fn the_log_keeps_the_last_three_hundred_messages() {
    let mut app = ChatApp::new("alice", "srv");
    for index in 0..400 {
        app.push_message(format!("m{index}"), MessageState::Confirmed);
    }
    assert_eq!(app.messages.len(), 300);
    assert_eq!(app.messages[0].text, "m100");
    assert_eq!(app.messages[299].text, "m399");
}

#[test]
fn shutdown_and_offline_notices() {
    let mut app = ChatApp::new("alice", "srv");
    app.mark_offline("link lost".to_string());
    assert!(!app.connected);
    assert!(!app.has_exit_notice());
    assert_eq!(app.messages.last().unwrap().text, "[system] link lost");
    app.begin_shutdown("bye".to_string());
    assert_eq!(app.exit_notice.as_deref(), Some("bye"));
    assert_eq!(app.messages.last().unwrap().text, "[system] bye");
}

#[test]
fn input_editing_and_taking() {
    let mut app = ChatApp::new("alice", "srv");
    for c in "  hey ".chars() {
        app.append_input(c);
    }
    app.pop_input();
    app.append_input('!');
    assert_eq!(app.take_input(), "hey!");
    assert_eq!(app.input, "");
    app.pop_input();
    assert_eq!(app.input, "");
}

#[test]
fn mention_candidates_follow_the_trailing_at_word() {
    let mut app = ChatApp::new("alice", "srv");
    app.update_connected_users(vec![
        "alice".to_string(),
        "Albert".to_string(),
        "bob".to_string(),
    ]);
    for c in "hi @al".chars() {
        app.append_input(c);
    }
    assert_eq!(app.mention_candidates(), ["alice", "Albert"]);
    app.select_next_mention();
    assert_eq!(app.mention_selection, 1);
    app.select_next_mention();
    assert_eq!(app.mention_selection, 0);
    app.select_previous_mention();
    assert_eq!(app.mention_selection, 1);
    app.apply_selected_mention();
    assert_eq!(app.input, "hi @Albert ");
    assert_eq!(app.mention_selection, 0);
    assert!(app.mention_candidates().is_empty());
}

#[test]
fn a_mention_needs_white_space_before_the_at() {
    let mut app = ChatApp::new("alice", "srv");
    for c in "mail@al".chars() {
        app.append_input(c);
    }
    assert!(app.mention_candidates().is_empty());
    app.apply_selected_mention();
    assert_eq!(app.input, "mail@al");
}

#[test]
fn shrinking_the_user_list_keeps_the_selection_in_range() {
    let mut app = ChatApp::new("alice", "srv");
    app.update_connected_users(vec!["ann".to_string(), "abe".to_string()]);
    app.append_input('@');
    app.select_previous_mention();
    assert_eq!(app.mention_selection, 1);
    app.update_connected_users(vec!["ann".to_string()]);
    assert_eq!(app.mention_selection, 0);
    app.update_connected_users(vec![]);
    assert_eq!(app.mention_selection, 0);
}

#[test]
fn mentions_of_the_current_user_are_detected() {
    let app = ChatApp::new("alice", "srv");
    assert!(app.message_mentions_current_user("[bob](1:2): @alice hi"));
    assert!(!app.message_mentions_current_user("[bob](1:2): @alicex hi"));
}

use drocsid::client::input::{
    apply_network_event, handle_key, record_send_failure, record_sent, take_submission,
    take_submission_at, Key,
};
use drocsid::client::network::{handshake_frame, outgoing_chat_frame};
use drocsid::client::view::{
    input_cursor, line_layout, mention_popup_area, message_scroll_offset, Area, LineLayout,
};
use drocsid::io_types::{is_disconnect_kind, IoKind};
use drocsid::protocol::encode_frame;

fn typed(app: &mut ChatApp, text: &str) {
    for c in text.chars() {
        handle_key(app, Key::Char(c), false);
    }
}

#[test]
fn keys_edit_the_input_and_enter_asks_to_submit() {
    let mut app = ChatApp::new("alice", "srv");
    typed(&mut app, "hi");
    assert!(!handle_key(&mut app, Key::Backspace, false));
    assert_eq!(app.input, "h");
    assert!(!handle_key(&mut app, Key::Char('x'), true));
    assert_eq!(app.input, "h");
    assert!(!app.should_quit);
    assert!(handle_key(&mut app, Key::Enter, false));
    assert!(!handle_key(&mut app, Key::Other, false));
    assert!(!handle_key(&mut app, Key::Char('q'), true));
    assert!(app.should_quit);
}

#[test]
fn escape_quits_and_an_exit_notice_waits_for_enter() {
    let mut app = ChatApp::new("alice", "srv");
    handle_key(&mut app, Key::Esc, false);
    assert!(app.should_quit);

    let mut app = ChatApp::new("alice", "srv");
    app.begin_shutdown("gone".to_string());
    assert!(!handle_key(&mut app, Key::Esc, false));
    assert!(!handle_key(&mut app, Key::Char('a'), false));
    assert!(!app.should_quit);
    assert_eq!(app.input, "");
    assert!(!handle_key(&mut app, Key::Enter, false));
    assert!(app.should_quit);
}

#[test]
fn arrow_keys_and_tab_complete_mentions() {
    let mut app = ChatApp::new("alice", "srv");
    app.update_connected_users(vec!["bob".to_string(), "bea".to_string()]);
    typed(&mut app, "@b");
    handle_key(&mut app, Key::Down, false);
    assert_eq!(app.mention_selection, 1);
    handle_key(&mut app, Key::Up, false);
    assert_eq!(app.mention_selection, 0);
    assert!(app.selection_is_valid());
    handle_key(&mut app, Key::Tab, false);
    assert_eq!(app.input, "@bob ");
}

#[test]
fn submissions_are_stamped_chat_lines() {
    let mut app = ChatApp::new("alice", "srv");
    typed(&mut app, "  hello ");
    let line = take_submission_at(&mut app, "08:30").unwrap();
    assert_eq!(line, "[alice](08:30): hello");
    assert_eq!(app.input, "");
    record_sent(&mut app, line.clone());
    assert_eq!(texts(&app).last().unwrap(), &(line, MessageState::Pending));

    typed(&mut app, "   ");
    assert_eq!(take_submission_at(&mut app, "08:31"), None);
    assert_eq!(app.messages.len(), 3);

    typed(&mut app, "now");
    let line = take_submission(&mut app).unwrap();
    assert!(line.starts_with("[alice]("));
    assert_eq!(line.as_bytes()[10], b':');
    assert!(line.ends_with("): now"));
}

#[test]
fn submissions_while_offline_are_dropped_with_a_notice() {
    let mut app = ChatApp::new("alice", "srv");
    app.mark_offline("x".to_string());
    typed(&mut app, "hello");
    assert_eq!(take_submission_at(&mut app, "08:30"), None);
    assert_eq!(
        app.messages.last().unwrap().text,
        "[system] message not sent because the client is offline"
    );
}

#[test]
fn send_failures_end_or_suspend_the_session() {
    let mut app = ChatApp::new("alice", "srv");
    assert!(!record_send_failure(&mut app, IoKind::BrokenPipe, "Broken pipe"));
    assert_eq!(app.exit_notice.as_deref(), Some("server unavailable: Broken pipe"));
    assert_eq!(
        app.messages.last().unwrap().text,
        "[system] server unavailable: Broken pipe"
    );

    let mut app = ChatApp::new("alice", "srv");
    assert!(record_send_failure(&mut app, IoKind::Other, "oops"));
    assert!(!app.connected);
    assert!(app.exit_notice.is_none());
    assert_eq!(app.messages.last().unwrap().text, "[system] failed to send message: oops");
}

#[test]
fn disconnect_kinds_are_the_lost_peer_kinds() {
    assert!(is_disconnect_kind(IoKind::BrokenPipe));
    assert!(is_disconnect_kind(IoKind::ConnectionAborted));
    assert!(is_disconnect_kind(IoKind::ConnectionReset));
    assert!(!is_disconnect_kind(IoKind::UnexpectedEof));
    assert!(!is_disconnect_kind(IoKind::Other));
}

#[test]
fn network_events_update_the_session() {
    let mut app = ChatApp::new("alice", "srv");
    app.push_message("[alice](1:1): yo".to_string(), MessageState::Pending);
    apply_network_event(&mut app, NetworkEvent::Message("[alice](1:1): yo".to_string()));
    assert_eq!(app.messages.last().unwrap().state, MessageState::Confirmed);
    apply_network_event(
        &mut app,
        NetworkEvent::UserList(vec!["alice".to_string(), "bob".to_string()]),
    );
    assert_eq!(app.connected_users, ["alice", "bob"]);
    apply_network_event(&mut app, NetworkEvent::Disconnected("bye".to_string()));
    assert!(!app.connected);
    assert_eq!(app.exit_notice.as_deref(), Some("bye"));
}

#[test]
fn client_frames_carry_the_handshake_and_the_chat_line() {
    assert_eq!(
        handshake_frame("alice").unwrap(),
        encode_frame(FrameType::Handshake, b"alice").unwrap()
    );
    assert_eq!(
        outgoing_chat_frame("[a](1:2): hi").unwrap(),
        encode_frame(FrameType::Chat, b"[a](1:2): hi\n").unwrap()
    );
    assert!(outgoing_chat_frame(&"z".repeat(16384)).is_err());
}

#[test]
fn log_lines_are_laid_out_by_kind() {
    let app = ChatApp::new("alice", "srv");
    let layout = line_layout(&app.messages[0], &app);
    assert!(matches!(layout, LineLayout::System(t) if t == "[system] Connected to srv"));

    let mut app = ChatApp::new("alice", "srv");
    app.push_message("[bob](1:2): hey @alice".to_string(), MessageState::Pending);
    app.push_message("plain @alice!".to_string(), MessageState::Confirmed);
    match line_layout(&app.messages[2], &app) {
        LineLayout::Chat {
            username,
            timestamp,
            body,
            pending,
            highlighted,
        } => {
            assert_eq!((username.as_str(), timestamp.as_str(), body.as_str()), ("bob", "1:2", "hey @alice"));
            assert!(pending && highlighted);
        }
        _ => panic!("expected a chat line"),
    }
    assert!(matches!(
        line_layout(&app.messages[3], &app),
        LineLayout::Plain { text, pending: false, highlighted: true } if text == "plain @alice!"
    ));
}

#[test]
fn scroll_offset_shows_the_last_lines() {
    assert_eq!(message_scroll_offset(10, 5), 6);
    assert_eq!(message_scroll_offset(3, 5), 0);
    assert_eq!(message_scroll_offset(4, 0), 4);
    assert_eq!(message_scroll_offset(70000, 1), 4464);
}

#[test]
fn mention_popup_sits_above_the_input() {
    let input = Area { x: 2, y: 20, width: 40, height: 3 };
    assert_eq!(mention_popup_area(&[], input, 80), None);
    assert_eq!(
        mention_popup_area(&[5, 30], input, 80),
        Some(Area { x: 2, y: 15, width: 33, height: 4 })
    );
    assert_eq!(
        mention_popup_area(&[1; 9], input, 10),
        Some(Area { x: 2, y: 12, width: 8, height: 7 })
    );
    let low = Area { x: 0, y: 3, width: 40, height: 3 };
    assert_eq!(mention_popup_area(&[4], low, 80).unwrap().y, 0);
}

#[test]
fn input_cursor_follows_the_text_within_the_panel() {
    let inner = Area { x: 1, y: 7, width: 10, height: 1 };
    assert_eq!(input_cursor(3, inner), (4, 7));
    assert_eq!(input_cursor(50, inner), (10, 7));
    let edge = Area { x: 65530, y: 0, width: 20, height: 1 };
    assert_eq!(input_cursor(2, edge), (65532, 0));
    assert_eq!(input_cursor(100, edge), (65535, 0));
}

fn event_texts(events: &[NetworkEvent]) -> Vec<String> {
    events
        .iter()
        .map(|event| match event {
            NetworkEvent::Message(m) => format!("message {m}"),
            NetworkEvent::UserList(users) => format!("users {}", users.join("|")),
            NetworkEvent::Disconnected(r) => format!("disconnected {r}"),
        })
        .collect()
}

#[test]
fn cutting_the_text_into_reads_changes_nothing() {
    let text = "one\n__users__:a,b\n  \ntwo\nthr";
    let mut whole = LineReader::new();
    let mut expected = event_texts(&whole.push_text(text));
    expected.extend(event_texts(&whole.finish()));
    for cut in 0..=text.len() {
        let mut reader = LineReader::new();
        let mut events = event_texts(&reader.push_text(&text[..cut]));
        events.extend(event_texts(&reader.push_text(&text[cut..])));
        events.extend(event_texts(&reader.finish()));
        assert_eq!(events, expected, "cut at {cut}");
    }
    assert_eq!(
        expected,
        [
            "message one",
            "users a|b",
            "message two",
            "message thr",
            "disconnected server disconnected"
        ]
    );
}
