//! The line protocol spoken before frames: the first read of a connection
//! names the user, and every line is relayed as text.  A session is a
//! state machine: each read gives the next stage and what to do.

use crate::io_types::{is_disconnect_kind, spec_is_disconnect_kind, IoKind};
use crate::text::{decode_lossy, push_char, spec_trim, trim_str, utf8_lossy};
use vstd::prelude::*;
use vstd::string::*;
use vstd::utf8::{decode_utf8, valid_utf8};

verus! {

/// The user name the first read of a line-protocol connection gives: its
/// text without surrounding white space, or nothing when that is empty.
pub fn line_handshake_username(first_read: &[u8]) -> (r: Option<String>)
    ensures
        match r {
            Some(name) => name@ == spec_trim(utf8_lossy(first_read@)) && name@.len() > 0,
            None => spec_trim(utf8_lossy(first_read@)).len() == 0,
        },
        valid_utf8(first_read@) ==> utf8_lossy(first_read@) == decode_utf8(first_read@),
{
    let text = decode_lossy(first_read);
    let name = trim_str(text.as_str());
    if name.unicode_len() == 0 {
        return None;
    }
    Some(name.to_owned())
}

/// The announcement that `username` joined, in the line protocol.
pub open spec fn spec_line_join_message(username: Seq<char>) -> Seq<char> {
    username + " has entered the chat. Say hello!\n"@
}

/// The announcement that `username` left, in the line protocol.
pub open spec fn spec_line_leave_message(username: Seq<char>) -> Seq<char> {
    username + " has left the chat\n"@
}

/// The announcement that `username` joined, in the line protocol.
pub fn line_join_message(username: &str) -> (r: String)
    ensures
        r@ == spec_line_join_message(username@),
{
    let mut line = username.to_owned();
    line.append(" has entered the chat. Say hello!\n");
    line
}

/// The announcement that `username` left, in the line protocol.
pub fn line_leave_message(username: &str) -> (r: String)
    ensures
        r@ == spec_line_leave_message(username@),
{
    let mut line = username.to_owned();
    line.append(" has left the chat\n");
    line
}

/// The line a line-protocol client sends for what the user typed.
pub open spec fn spec_line_chat_message(username: Seq<char>, input: Seq<char>) -> Seq<char> {
    seq!['['] + username + "]: "@ + spec_trim(input) + seq!['\n']
}

/// The line a line-protocol client sends for what the user typed: the user
/// name in brackets, then the typed text without surrounding white space.
pub fn line_chat_message(username: &str, input: &str) -> (r: String)
    ensures
        r@ == spec_line_chat_message(username@, input@),
{
    let mut line = String::new();
    push_char(&mut line, '[');
    line.append(username);
    line.append("]: ");
    line.append(trim_str(input));
    push_char(&mut line, '\n');
    assert(line@ =~= spec_line_chat_message(username@, input@));
    line
}

/// Where a line-protocol session stands.
pub enum LineSession {
    /// The first read, which names the user, has not come yet.
    AwaitingName,
    /// The user of this name is chatting.
    Chatting(String),
    /// The session is over.
    Ended,
}

/// What one read of a line-protocol connection gave.
pub enum LineRead {
    /// These bytes; none when the peer closed the stream.
    Bytes(Vec<u8>),
    /// The end of the stream.
    Eof,
    /// A failure of this kind.
    Failed(IoKind),
}

/// What a line-protocol session does after a read.
pub enum LineAction {
    /// Remove the client and end the session.
    Remove,
    /// Remove the client and end the session with the error that the
    /// user name is empty.
    RefuseEmptyName,
    /// Deliver this announcement that the user joined to every client.
    Announce(String),
    /// Deliver this text to every client.
    Relay(String),
    /// Remove the client, deliver this announcement that the user left to
    /// every client, and end the session.
    Disconnect(String),
    /// End the session with the read failure of this kind.
    Fail(IoKind),
}

/// A session's stage as plain values.
pub enum LineStageView {
    AwaitingName,
    Chatting(Seq<char>),
    Ended,
}

/// An action as plain values.
pub enum LineActionView {
    Remove,
    RefuseEmptyName,
    Announce(Seq<char>),
    Relay(Seq<char>),
    Disconnect(Seq<char>),
    Fail(IoKind),
}

/// A session's stage as plain values.
pub open spec fn line_stage_view(s: LineSession) -> LineStageView {
    match s {
        LineSession::AwaitingName => LineStageView::AwaitingName,
        LineSession::Chatting(name) => LineStageView::Chatting(name@),
        LineSession::Ended => LineStageView::Ended,
    }
}

/// An action as plain values.
pub open spec fn line_action_view(a: LineAction) -> LineActionView {
    match a {
        LineAction::Remove => LineActionView::Remove,
        LineAction::RefuseEmptyName => LineActionView::RefuseEmptyName,
        LineAction::Announce(t) => LineActionView::Announce(t@),
        LineAction::Relay(t) => LineActionView::Relay(t@),
        LineAction::Disconnect(t) => LineActionView::Disconnect(t@),
        LineAction::Fail(kind) => LineActionView::Fail(kind),
    }
}

/// The next stage and the action after `read`.  Waiting for the name, a
/// failed read ends the session with that failure and an empty read or the
/// end of the stream removes the client; otherwise the read, decoded with
/// replacement characters and without surrounding white space, is the user
/// name, which must not be empty, and its arrival is announced.  Chatting, a
/// failure that means the peer is gone, an empty read or the end of the
/// stream disconnect the user; another failure ends the session with it;
/// and what was read is relayed as decoded text.
pub open spec fn spec_line_session_step(s: LineStageView, read: LineRead) -> (
    LineStageView,
    LineActionView,
) {
    match s {
        LineStageView::AwaitingName => match read {
            LineRead::Failed(kind) => (LineStageView::Ended, LineActionView::Fail(kind)),
            LineRead::Eof => (LineStageView::Ended, LineActionView::Remove),
            LineRead::Bytes(b) => {
                let name = spec_trim(utf8_lossy(b@));
                if b@.len() == 0 {
                    (LineStageView::Ended, LineActionView::Remove)
                } else if name.len() == 0 {
                    (LineStageView::Ended, LineActionView::RefuseEmptyName)
                } else {
                    (
                        LineStageView::Chatting(name),
                        LineActionView::Announce(spec_line_join_message(name)),
                    )
                }
            },
        },
        LineStageView::Chatting(name) => match read {
            LineRead::Failed(kind) => if spec_is_disconnect_kind(kind) {
                (LineStageView::Ended, LineActionView::Disconnect(spec_line_leave_message(name)))
            } else {
                (LineStageView::Ended, LineActionView::Fail(kind))
            },
            LineRead::Eof => (
                LineStageView::Ended,
                LineActionView::Disconnect(spec_line_leave_message(name)),
            ),
            LineRead::Bytes(b) => if b@.len() == 0 {
                (LineStageView::Ended, LineActionView::Disconnect(spec_line_leave_message(name)))
            } else {
                (LineStageView::Chatting(name), LineActionView::Relay(utf8_lossy(b@)))
            },
        },
        LineStageView::Ended => (LineStageView::Ended, LineActionView::Remove),
    }
}

/// The next stage of a line-protocol session and what to do, after `read`.
/// An ended session stays ended and removes its client, which it has
/// removed already.
pub fn line_session_step(s: LineSession, read: LineRead) -> (r: (LineSession, LineAction))
    ensures
        (line_stage_view(r.0), line_action_view(r.1)) == spec_line_session_step(
            line_stage_view(s),
            read,
        ),
{
    match s {
        LineSession::AwaitingName => match read {
            LineRead::Failed(kind) => (LineSession::Ended, LineAction::Fail(kind)),
            LineRead::Eof => (LineSession::Ended, LineAction::Remove),
            LineRead::Bytes(b) => {
                if b.len() == 0 {
                    return (LineSession::Ended, LineAction::Remove);
                }
                match line_handshake_username(b.as_slice()) {
                    None => (LineSession::Ended, LineAction::RefuseEmptyName),
                    Some(name) => {
                        let join = line_join_message(name.as_str());
                        (LineSession::Chatting(name), LineAction::Announce(join))
                    },
                }
            },
        },
        LineSession::Chatting(name) => match read {
            LineRead::Failed(kind) => {
                if is_disconnect_kind(kind) {
                    let leave = line_leave_message(name.as_str());
                    (LineSession::Ended, LineAction::Disconnect(leave))
                } else {
                    (LineSession::Ended, LineAction::Fail(kind))
                }
            },
            LineRead::Eof => {
                let leave = line_leave_message(name.as_str());
                (LineSession::Ended, LineAction::Disconnect(leave))
            },
            LineRead::Bytes(b) => {
                if b.len() == 0 {
                    let leave = line_leave_message(name.as_str());
                    return (LineSession::Ended, LineAction::Disconnect(leave));
                }
                let text = decode_lossy(b.as_slice());
                (LineSession::Chatting(name), LineAction::Relay(text))
            },
        },
        LineSession::Ended => (LineSession::Ended, LineAction::Remove),
    }
}

} // verus!
