//! The length-prefixed frame protocol spoken between client and server, the
//! presence payload, chat message lines and mentions.

pub mod chat;
pub mod frame;
pub mod presence;
pub mod users_event;


pub use chat::{format_chat_message, message_mentions_user, parse_chat_message};
pub use presence::{encode_presence, is_valid_username, parse_presence};
pub use users_event::{build_users_event, parse_users_event, USERS_EVENT_PREFIX};
pub use frame::{
    encode_frame, parse_frame_header, read_frame, Frame, FrameError, FrameType,
    CURRENT_PROTOCOL_VERSION, FRAME_HEADER_BYTES, MAX_FRAME_PAYLOAD_BYTES,
};


