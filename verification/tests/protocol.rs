use std::io::{self, Cursor, Read};

use drocsid::protocol::{
    build_users_event, encode_frame, encode_presence, format_chat_message, is_valid_username,
    message_mentions_user, parse_chat_message, parse_frame_header, parse_presence,
    parse_users_event, read_frame, FrameError, FrameType, CURRENT_PROTOCOL_VERSION,
    MAX_FRAME_PAYLOAD_BYTES,
};

struct ChunkedReader {
    bytes: Vec<u8>,
    offset: usize,
    chunk_size: usize,
}

impl ChunkedReader {
    fn new(bytes: Vec<u8>, chunk_size: usize) -> Self {
        Self {
            bytes,
            offset: 0,
            chunk_size,
        }
    }
}

impl Read for ChunkedReader {
    fn read(&mut self, buffer: &mut [u8]) -> io::Result<usize> {
        if self.offset == self.bytes.len() {
            return Ok(0);
        }

        let length = self
            .chunk_size
            .min(buffer.len())
            .min(self.bytes.len() - self.offset);
        buffer[..length].copy_from_slice(&self.bytes[self.offset..self.offset + length]);
        self.offset += length;
        Ok(length)
    }
}

struct FailingReader;

impl Read for FailingReader {
    fn read(&mut self, _buffer: &mut [u8]) -> io::Result<usize> {
        Err(io::Error::new(io::ErrorKind::ConnectionReset, "reset"))
    }
}

#[test]
fn encodes_and_decodes_typed_frames() {
    let encoded = encode_frame(FrameType::Chat, b"hello\nworld").unwrap();
    let decoded = read_frame(&mut Cursor::new(encoded)).unwrap().unwrap();

    assert_eq!(decoded.version, CURRENT_PROTOCOL_VERSION);
    assert_eq!(decoded.kind, FrameType::Chat);
    assert_eq!(decoded.payload, b"hello\nworld");
}

#[test]
fn reads_frames_when_transport_returns_partial_chunks() {
    let encoded = encode_frame(FrameType::Chat, "x€".as_bytes()).unwrap();
    let mut reader = ChunkedReader::new(encoded, 2);

    let decoded = read_frame(&mut reader).unwrap().unwrap();

    assert_eq!(decoded.payload, "x€".as_bytes());
    assert_eq!(read_frame(&mut reader), Ok(None));
}

#[test]
fn rejects_unsupported_versions_and_unknown_types() {
    let mut version = vec![9, FrameType::Chat.to_byte(), 0, 0, 0, 0];
    assert_eq!(
        read_frame(&mut Cursor::new(&mut version)),
        Err(FrameError::UnsupportedVersion(9))
    );

    let mut kind = vec![CURRENT_PROTOCOL_VERSION, 99, 0, 0, 0, 0];
    assert_eq!(
        read_frame(&mut Cursor::new(&mut kind)),
        Err(FrameError::UnknownType(99))
    );
}

#[test]
fn rejects_truncated_and_oversized_frames() {
    let mut truncated = vec![
        CURRENT_PROTOCOL_VERSION,
        FrameType::Chat.to_byte(),
        0,
        0,
        0,
        3,
        b'x',
    ];
    assert_eq!(
        read_frame(&mut Cursor::new(&mut truncated)),
        Err(FrameError::Truncated)
    );

    let too_large = vec![0; MAX_FRAME_PAYLOAD_BYTES + 1];
    assert_eq!(
        encode_frame(FrameType::Chat, &too_large),
        Err(FrameError::TooLarge(too_large.len()))
    );

    let mut oversized_header = vec![
        CURRENT_PROTOCOL_VERSION,
        FrameType::Chat.to_byte(),
        0,
        0,
        0x40,
        1,
    ];
    assert_eq!(
        read_frame(&mut Cursor::new(&mut oversized_header)),
        Err(FrameError::TooLarge(MAX_FRAME_PAYLOAD_BYTES + 1))
    );
}

#[test]
fn distinguishes_clean_eof_from_truncated_header() {
    assert_eq!(read_frame(&mut Cursor::new(Vec::<u8>::new())), Ok(None));

    let mut truncated_header = vec![CURRENT_PROTOCOL_VERSION, FrameType::Chat.to_byte()];
    assert_eq!(
        read_frame(&mut Cursor::new(&mut truncated_header)),
        Err(FrameError::Truncated)
    );
}

#[test]
fn encodes_and_parses_presence_without_a_reserved_prefix() {
    let users = vec!["alice,ops".to_string(), "bob".to_string()];
    let frame = encode_presence(&users).unwrap();
    let decoded = read_frame(&mut Cursor::new(frame)).unwrap().unwrap();

    assert_eq!(decoded.kind, FrameType::Presence);
    assert_eq!(parse_presence(&decoded.payload), Some(users));
}

#[test]
fn supports_presence_payloads_larger_than_chat_messages() {
    let users = vec!["x".repeat(4096)];
    let frame = encode_presence(&users).unwrap();
    let decoded = read_frame(&mut Cursor::new(frame)).unwrap().unwrap();

    assert_eq!(parse_presence(&decoded.payload), Some(users));
}

#[test]
fn encodes_and_parses_empty_presence() {
    let frame = encode_presence(&[]).unwrap();
    let decoded = read_frame(&mut Cursor::new(frame)).unwrap().unwrap();

    assert_eq!(parse_presence(&decoded.payload), Some(Vec::new()));
}

#[test]
fn rejects_malformed_presence_payloads() {
    assert_eq!(parse_presence(&[]), None);
    assert_eq!(parse_presence(&[0, 1, 0]), None);
    assert_eq!(
        parse_presence(&[0, 0, 0, 1, b'a', b'e', b'x', b't', b'r', b'a']),
        None
    );
}

#[test]
fn rejects_invalid_usernames_in_presence_payloads() {
    let invalid_users = ["", "alice\nadmin", "alice\u{1b}[2J"];

    for user in invalid_users {
        assert_eq!(
            encode_presence(&[user.to_string()]),
            Err(FrameError::InvalidUsername),
            "user: {user:?}"
        );
    }
}

#[test]
fn formats_and_parses_chat_message() {
    let message = format_chat_message("alice", "12:34", "hello");
    let parsed = parse_chat_message(&message).unwrap();

    assert_eq!(message, "[alice](12:34): hello");
    assert_eq!(parsed, ("alice", "12:34", "hello"));
}

#[test]
fn rejects_invalid_chat_message_shape() {
    assert_eq!(parse_chat_message("alice(12:34): hello"), None);
    assert_eq!(parse_chat_message("[alice](12:34 hello"), None);
    assert_eq!(parse_chat_message("[alice] 12:34: hello"), None);
}

#[test]
fn detects_mentions_with_word_boundary() {
    assert!(message_mentions_user("hello @alice", "alice"));
    assert!(message_mentions_user("@alice, are you there?", "alice"));
}

#[test]
fn rejects_partial_mentions() {
    assert!(!message_mentions_user("hello @alice1", "alice"));
    assert!(!message_mentions_user("hello @alice_name", "alice"));
    assert!(!message_mentions_user("hello alice", "alice"));
}

#[test]
fn rejects_usernames_with_control_characters() {
    assert!(!is_valid_username("alice\u{1b}[2J"));
    assert!(!is_valid_username("alice\nadmin"));
    assert!(!is_valid_username("alice\radmin"));
    assert!(!is_valid_username("alice\tadmin"));
}

#[test]
fn accepts_usernames_with_printable_characters() {
    assert!(is_valid_username("alice_42"));
    assert!(is_valid_username("café"));
}

#[test]
fn encoded_frame_has_header_then_payload() {
    let encoded = encode_frame(FrameType::Presence, &[7, 8, 9]).unwrap();
    assert_eq!(encoded, vec![1, 3, 0, 0, 0, 3, 7, 8, 9]);
    let encoded = encode_frame(FrameType::Handshake, &vec![0xab; 300]).unwrap();
    assert_eq!(&encoded[..6], &[1, 1, 0, 0, 1, 44]);
    assert_eq!(encoded.len(), 306);
}

#[test]
fn frame_type_bytes_round_trip() {
    for kind in [FrameType::Handshake, FrameType::Chat, FrameType::Presence] {
        assert_eq!(FrameType::try_from_byte(kind.to_byte()), Ok(kind));
    }
    assert_eq!(FrameType::try_from_byte(0), Err(FrameError::UnknownType(0)));
    assert_eq!(FrameType::try_from_byte(4), Err(FrameError::UnknownType(4)));
}

#[test]
fn frame_header_of_an_encoded_frame_gives_its_type_and_length() {
    let payload = "héllo".as_bytes();
    let encoded = encode_frame(FrameType::Chat, payload).unwrap();
    assert_eq!(
        parse_frame_header(&encoded[..6]),
        Ok((FrameType::Chat, payload.len()))
    );
    assert_eq!(&encoded[6..], payload);
}

#[test]
fn frame_at_the_payload_limit_is_accepted() {
    let payload = vec![b'a'; MAX_FRAME_PAYLOAD_BYTES];
    let encoded = encode_frame(FrameType::Chat, &payload).unwrap();
    let decoded = read_frame(&mut Cursor::new(encoded)).unwrap().unwrap();
    assert_eq!(decoded.payload.len(), MAX_FRAME_PAYLOAD_BYTES);
}

#[test]
fn reader_failure_is_reported_with_its_kind() {
    assert_eq!(
        read_frame(&mut FailingReader),
        Err(FrameError::Io(io::ErrorKind::ConnectionReset))
    );
}

#[test]
fn frames_read_back_one_after_another() {
    let mut bytes = encode_frame(FrameType::Chat, b"one").unwrap();
    bytes.extend(encode_frame(FrameType::Presence, &[0, 0]).unwrap());
    let mut reader = ChunkedReader::new(bytes, 1);
    let first = read_frame(&mut reader).unwrap().unwrap();
    let second = read_frame(&mut reader).unwrap().unwrap();
    assert_eq!((first.kind, first.payload), (FrameType::Chat, b"one".to_vec()));
    assert_eq!((second.kind, second.payload), (FrameType::Presence, vec![0, 0]));
    assert_eq!(read_frame(&mut reader), Ok(None));
}

#[test]
fn presence_payload_layout_is_count_then_lengths_and_names() {
    let frame = encode_presence(&["ab".to_string(), "é".to_string()]).unwrap();
    assert_eq!(
        frame,
        vec![1, 3, 0, 0, 0, 10, 0, 2, 0, 2, b'a', b'b', 0, 2, 0xc3, 0xa9]
    );
}

#[test]
fn presence_round_trips_several_names() {
    let users = vec!["alice".to_string(), "bob smith".to_string(), "çé".to_string()];
    let frame = encode_presence(&users).unwrap();
    assert_eq!(parse_presence(&frame[6..]), Some(users));
}

#[test]
fn presence_with_invalid_utf8_name_is_rejected() {
    assert_eq!(parse_presence(&[0, 1, 0, 1, 0xff]), None);
    assert_eq!(parse_presence(&[0, 1, 0, 2, b'a', b'\n']), None);
}

#[test]
fn presence_with_too_many_names_is_too_large() {
    let users = vec!["u".to_string(); 65536];
    assert_eq!(encode_presence(&users), Err(FrameError::TooLarge(usize::MAX)));
}

#[test]
fn blank_usernames_are_invalid() {
    assert!(!is_valid_username(""));
    assert!(!is_valid_username("   "));
    assert!(!is_valid_username("\u{85}"));
    assert!(!is_valid_username("bob\u{7f}"));
    assert!(is_valid_username(" bob "));
}

#[test]
fn chat_line_round_trips_through_parse() {
    let line = format_chat_message("bob", "09:05", "hi ](x): there");
    assert_eq!(line, "[bob](09:05): hi ](x): there");
    assert_eq!(parse_chat_message(&line), Some(("bob", "09:05", "hi ](x): there")));
}

#[test]
fn chat_line_without_opening_bracket_is_rejected() {
    assert_eq!(parse_chat_message("x[alice](12:34): hello"), None);
    assert_eq!(parse_chat_message(""), None);
    assert_eq!(parse_chat_message("[](): "), Some(("", "", "")));
}

#[test]
fn mention_found_after_a_partial_one() {
    assert!(message_mentions_user("@alice1 and @alice", "alice"));
    assert!(message_mentions_user("@alice!", "alice"));
    assert!(!message_mentions_user("@aliceé", "alice"));
    assert!(message_mentions_user("hi @alice-", "alice"));
}

#[test]
fn users_event_round_trips_without_its_newline() {
    let users = vec!["alice".to_string(), "bob".to_string()];
    let line = build_users_event(&users);
    assert_eq!(line, "__users__:alice,bob\n");
    assert_eq!(parse_users_event(line.trim_end_matches('\n')), Some(users));
    assert_eq!(build_users_event(&[]), "__users__:\n");
    assert_eq!(parse_users_event("__users__:"), Some(Vec::new()));
}

#[test]
fn users_event_trims_names_and_drops_empty_ones() {
    assert_eq!(
        parse_users_event("__users__: alice , ,bob,"),
        Some(vec!["alice".to_string(), "bob".to_string()])
    );
    assert_eq!(parse_users_event("hello"), None);
    assert_eq!(parse_users_event("__users_"), None);
}

use drocsid::protocol::frame::{finish_frame, header_step, HeaderStep, ReadFailure};
use drocsid::protocol::Frame;

#[test]
fn header_steps_collect_chunks_and_tell_clean_end_from_truncation() {
    assert!(matches!(header_step(Vec::new(), Vec::new()), HeaderStep::AtEnd));
    assert!(matches!(header_step(vec![1, 2], Vec::new()), HeaderStep::Truncated));
    assert!(matches!(header_step(vec![1], vec![2, 0]), HeaderStep::Partial(b) if b == vec![1, 2, 0]));
    assert!(matches!(
        header_step(vec![1, 2, 0], vec![0, 0, 5, 9]),
        HeaderStep::Complete(b) if b == vec![1, 2, 0, 0, 0, 5, 9]
    ));
}

#[test]
fn finishing_a_frame_maps_short_payloads_to_truncation() {
    assert_eq!(
        finish_frame(FrameType::Chat, Ok(b"hi".to_vec())),
        Ok(Some(Frame { version: CURRENT_PROTOCOL_VERSION, kind: FrameType::Chat, payload: b"hi".to_vec() }))
    );
    assert_eq!(finish_frame(FrameType::Presence, Err(ReadFailure::UnexpectedEof)), Err(FrameError::Truncated));
    assert_eq!(
        finish_frame(FrameType::Chat, Err(ReadFailure::Other(io::ErrorKind::TimedOut))),
        Err(FrameError::Io(io::ErrorKind::TimedOut))
    );
}

#[test]
fn parsed_presence_payloads_encode_back() {
    let payload = vec![0, 2, 0, 5, b'a', b'l', b'i', b'c', b'e', 0, 3, b'b', b'o', b'b'];
    let users = parse_presence(&payload).unwrap();
    assert_eq!(users, vec!["alice".to_string(), "bob".to_string()]);
    let frame = encode_presence(&users).unwrap();
    assert_eq!(frame[6..].to_vec(), payload);
}

#[test]
fn users_event_round_trips_with_its_newline() {
    let users = vec!["alice".to_string(), "bob".to_string()];
    assert_eq!(parse_users_event(&build_users_event(&users)), Some(users));
    assert_eq!(parse_users_event(&build_users_event(&[])), Some(Vec::new()));
}

#[test]
fn a_frame_read_back_after_a_clean_end_gives_nothing() {
    let bytes = encode_frame(FrameType::Chat, "x€".as_bytes()).unwrap();
    let mut reader = ChunkedReader::new(bytes, 2);
    assert_eq!(
        read_frame(&mut reader),
        Ok(Some(Frame { version: CURRENT_PROTOCOL_VERSION, kind: FrameType::Chat, payload: "x€".as_bytes().to_vec() }))
    );
    assert_eq!(read_frame(&mut reader), Ok(None));
    assert_eq!(read_frame(&mut Cursor::new(vec![1, 2])), Err(FrameError::Truncated));
}
