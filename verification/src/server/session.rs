//! One client session: what a handshake names, which frame headers and chat
//! frames the server takes, the announcements made when a user joins or
//! leaves, and the steps that register, start, feed and end a session.

use crate::client::app::keep_last;
use crate::clock::{
    clock_stamp, is_clock_time, lemma_clock_stamp_reads_back, local_clock_time, spec_clock_stamp,
};
use crate::protocol::chat::{format_chat_message, spec_chat_line};
use crate::protocol::frame::{
    encode_frame, spec_be_u32, spec_encode_frame, spec_type_of_byte, Frame, FrameType,
    CURRENT_PROTOCOL_VERSION, FRAME_HEADER_BYTES, MAX_FRAME_PAYLOAD_BYTES,
};
use crate::protocol::presence::{is_valid_username, spec_is_valid_username, string_views};
use crate::server::error::ServerError;
use crate::server::history::{spec_trim_newlines, MESSAGE_HISTORY_LIMIT};
use crate::server::registry::{
    delivered_to_all, holds_registration, is_target, lemma_find_target_from,
    lemma_find_target_update, lemma_grown_refl, lemma_grown_trans, lemma_update_within,
    presence_delivered, clients_grown_from, grown_from, grown_from_some, registrations_within, spec_broadcast,
    spec_find_target, spec_remove_target, with_delivered, ClientToken, ClientView, PeerAddr,
    ServerState,
};
use std::sync::mpsc::SyncSender;
use crate::text::{
    chars_have_non_whitespace, chars_of, has_non_whitespace, push_char, spec_trim, spec_trim_end,
    str_from_utf8, trim_end_str, trim_str,
};
use vstd::prelude::*;
use vstd::string::*;
use vstd::utf8::{decode_utf8, encode_utf8, valid_utf8};

verus! {

/// The longest user name a handshake may carry, in bytes.
pub const MAX_USERNAME_BYTES: usize = 32;

/// The text of a successful result.
pub open spec fn text_result(r: Result<String, ServerError>) -> Result<Seq<char>, ServerError> {
    match r {
        Ok(s) => Ok(s@),
        Err(e) => Err(e),
    }
}

/// What a handshake gives, from what reading the first frame gave: a frame
/// that is too long names a user name that is too long; the frame must be a
/// handshake of well-formed UTF-8 within the length limit, holding a
/// character other than white space and no control character; the name is
/// its text without surrounding white space.
pub open spec fn spec_handshake_username(read: Result<Option<Frame>, ServerError>) -> Result<
    Seq<char>,
    ServerError,
> {
    match read {
        Err(ServerError::MessageTooLong) => Err(ServerError::UsernameTooLong),
        Err(e) => Err(e),
        Ok(None) => Err(ServerError::EmptyHandshakeUsername),
        Ok(Some(f)) => {
            let p = f.payload@;
            if f.kind != FrameType::Handshake {
                Err(ServerError::InvalidFrameType)
            } else if !valid_utf8(p) {
                Err(ServerError::InvalidUtf8)
            } else if p.len() > MAX_USERNAME_BYTES {
                Err(ServerError::UsernameTooLong)
            } else if !has_non_whitespace(decode_utf8(p)) {
                Err(ServerError::EmptyHandshakeUsername)
            } else if !spec_is_valid_username(decode_utf8(p)) {
                Err(ServerError::UsernameContainsControlCharacters)
            } else {
                Ok(spec_trim(decode_utf8(p)))
            }
        },
    }
}

/// The user name a handshake names, from what reading the first frame gave.
pub fn handshake_username(read: Result<Option<Frame>, ServerError>) -> (r: Result<
    String,
    ServerError,
>)
    ensures
        text_result(r) == spec_handshake_username(read),
{
    let frame = match read {
        Ok(Some(frame)) => frame,
        Ok(None) => return Err(ServerError::EmptyHandshakeUsername),
        Err(ServerError::MessageTooLong) => return Err(ServerError::UsernameTooLong),
        Err(error) => return Err(error),
    };
    match frame.kind {
        FrameType::Handshake => {},
        _ => return Err(ServerError::InvalidFrameType),
    }
    let username = match str_from_utf8(frame.payload.as_slice()) {
        Some(username) => username,
        None => return Err(ServerError::InvalidUtf8),
    };
    if frame.payload.len() > MAX_USERNAME_BYTES {
        return Err(ServerError::UsernameTooLong);
    }
    if !chars_have_non_whitespace(&chars_of(username)) {
        return Err(ServerError::EmptyHandshakeUsername);
    }
    if !is_valid_username(username) {
        return Err(ServerError::UsernameContainsControlCharacters);
    }
    Ok(trim_str(username).to_owned())
}

/// What a frame header read by the server gives: a payload over the limit
/// first, then the version, then the type.
pub open spec fn spec_session_header(h: Seq<u8>) -> Result<(FrameType, nat), ServerError> {
    let n = spec_be_u32(h[2], h[3], h[4], h[5]);
    if n > MAX_FRAME_PAYLOAD_BYTES {
        Err(ServerError::MessageTooLong)
    } else if h[0] != CURRENT_PROTOCOL_VERSION {
        Err(ServerError::UnsupportedProtocolVersion)
    } else {
        match spec_type_of_byte(h[1]) {
            Some(kind) => Ok((kind, n)),
            None => Err(ServerError::UnknownProtocolFrameType),
        }
    }
}

/// Decodes a frame header the way the server does: the frame type and the
/// payload length, or the error the session ends with.
pub fn session_frame_header(header: &[u8]) -> (r: Result<(FrameType, usize), ServerError>)
    requires
        header@.len() == FRAME_HEADER_BYTES,
    ensures
        match spec_session_header(header@) {
            Ok((kind, n)) => r matches Ok((k, m)) && k == kind && m == n,
            Err(e) => r matches Err(x) && x == e,
        },
{
    let payload_len: u32 = (header[2] as u32) * 0x1000000 + (header[3] as u32) * 0x10000 + (
    header[4] as u32) * 0x100 + (header[5] as u32);
    if payload_len as usize > MAX_FRAME_PAYLOAD_BYTES {
        return Err(ServerError::MessageTooLong);
    }
    if header[0] != CURRENT_PROTOCOL_VERSION {
        return Err(ServerError::UnsupportedProtocolVersion);
    }
    match FrameType::try_from_byte(header[1]) {
        Ok(kind) => Ok((kind, payload_len as usize)),
        Err(_) => Err(ServerError::UnknownProtocolFrameType),
    }
}

/// What a frame read during a session gives: only chat frames are taken,
/// their payload must be well-formed UTF-8, and a body of white space alone
/// is skipped.
pub open spec fn spec_chat_content(f: Frame) -> Result<Option<Seq<char>>, ServerError> {
    if f.kind != FrameType::Chat {
        Err(ServerError::InvalidFrameType)
    } else if !valid_utf8(f.payload@) {
        Err(ServerError::InvalidUtf8)
    } else if !has_non_whitespace(decode_utf8(f.payload@)) {
        Ok(None)
    } else {
        Ok(Some(decode_utf8(f.payload@)))
    }
}

/// The text of an optional successful result.
pub open spec fn opt_text_result(r: Result<Option<String>, ServerError>) -> Result<
    Option<Seq<char>>,
    ServerError,
> {
    match r {
        Ok(Some(s)) => Ok(Some(s@)),
        Ok(None) => Ok(None),
        Err(e) => Err(e),
    }
}

/// The chat text a frame carries, `None` when it is blank, or the error the
/// session ends with.
pub fn chat_content(frame: Frame) -> (r: Result<Option<String>, ServerError>)
    ensures
        opt_text_result(r) == spec_chat_content(frame),
{
    match frame.kind {
        FrameType::Chat => {},
        _ => return Err(ServerError::InvalidFrameType),
    }
    let content = match str_from_utf8(frame.payload.as_slice()) {
        Some(content) => content,
        None => return Err(ServerError::InvalidUtf8),
    };
    if !chars_have_non_whitespace(&chars_of(content)) {
        return Ok(None);
    }
    Ok(Some(content.to_owned()))
}

/// The announcement that `username` joined.
pub open spec fn spec_join_message(username: Seq<char>) -> Seq<char> {
    seq!['@'] + username + " has entered the chat. Say hello!\n"@
}

/// The announcement that `username` left.
pub open spec fn spec_leave_message(username: Seq<char>) -> Seq<char> {
    username + " has left the chat\n"@
}

/// The announcement that `username` joined.
pub fn join_message(username: &str) -> (r: String)
    ensures
        r@ == spec_join_message(username@),
{
    let mut line = String::new();
    push_char(&mut line, '@');
    line.append(username);
    let tail = " has entered the chat. Say hello!\n";
    line.append(tail);
    assert(line@ =~= spec_join_message(username@));
    line
}

/// The announcement that `username` left.
pub fn leave_message(username: &str) -> (r: String)
    ensures
        r@ == spec_leave_message(username@),
{
    let mut line = username.to_owned();
    let tail = " has left the chat\n";
    line.append(tail);
    assert(line@ =~= spec_leave_message(username@));
    line
}

/// The chat frame that carries `message` without its trailing white space.
pub open spec fn spec_announcement_frame(message: Seq<char>) -> Result<Seq<u8>, ServerError> {
    match spec_encode_frame(FrameType::Chat, encode_utf8(spec_trim_end(message))) {
        Ok(b) => Ok(b),
        Err(_) => Err(ServerError::MessageTooLong),
    }
}

/// The bytes of a successful result.
pub open spec fn frame_result(r: Result<Vec<u8>, ServerError>) -> Result<Seq<u8>, ServerError> {
    match r {
        Ok(b) => Ok(b@),
        Err(e) => Err(e),
    }
}

/// The chat frame that carries `message` without its trailing white space;
/// a message too long for a frame is refused.
pub fn announcement_frame(message: &str) -> (r: Result<Vec<u8>, ServerError>)
    ensures
        frame_result(r) == spec_announcement_frame(message@),
{
    let text = trim_end_str(message);
    match encode_frame(FrameType::Chat, text.as_bytes()) {
        Ok(frame) => Ok(frame),
        Err(_) => Err(ServerError::MessageTooLong),
    }
}

/// The chat frame that carries `message` as it is; a message too long for a
/// frame is refused.
pub fn chat_frame(message: &str) -> (r: Result<Vec<u8>, ServerError>)
    ensures
        frame_result(r) == match spec_encode_frame(FrameType::Chat, encode_utf8(message@)) {
            Ok(b) => Ok::<Seq<u8>, ServerError>(b),
            Err(_) => Err(ServerError::MessageTooLong),
        },
{
    match encode_frame(FrameType::Chat, message.as_bytes()) {
        Ok(frame) => Ok(frame),
        Err(_) => Err(ServerError::MessageTooLong),
    }
}

/// What accepting the chat line `line` gives: a line too long for a frame is
/// refused and changes nothing; otherwise it is recorded and its frame is
/// delivered to every client, and when that dropped a client every client
/// left is offered the new list of users; the result is success, or a full
/// queue when that list could not be sent.
pub open spec fn chat_outcome(
    clients_before: Seq<ClientView>,
    history_before: Seq<Seq<char>>,
    clients_after: Seq<ClientView>,
    history_after: Seq<Seq<char>>,
    r: Result<(), ServerError>,
    line: Seq<char>,
) -> bool {
    &&& spec_encode_frame(FrameType::Chat, encode_utf8(line)) is Err ==> (r matches Err(
        ServerError::MessageTooLong,
    )) && clients_after == clients_before && history_after == history_before
    &&& spec_encode_frame(FrameType::Chat, encode_utf8(line)) is Ok ==> (r is Ok || r matches Err(
        ServerError::OutboundQueueFull,
    )) && history_after == history_with(history_before, line) && exists|after: Seq<ClientView>|
        #[trigger] delivered_to_all(
            clients_before,
            spec_encode_frame(FrameType::Chat, encode_utf8(line))->Ok_0,
            after,
        ) && (clients_after == after || after.len() < clients_before.len() && clients_grown_from(
            clients_after,
            after,
        ) && registrations_within(clients_after, after) && (r is Ok ==> presence_delivered(
            clients_after,
        )))
}

/// The history after recording `message`.
pub open spec fn history_with(h: Seq<Seq<char>>, message: Seq<char>) -> Seq<Seq<char>> {
    keep_last(h.push(spec_trim_newlines(message)), MESSAGE_HISTORY_LIMIT as nat)
}

/// The chat frames that carry the lines of `h`, oldest first.
pub open spec fn history_frames(h: Seq<Seq<char>>) -> Seq<Seq<u8>> {
    h.map_values(|line: Seq<char>| spec_encode_frame(FrameType::Chat, encode_utf8(line))->Ok_0)
}

/// Whether every line of `h` fits in a chat frame.
pub open spec fn history_fits(h: Seq<Seq<char>>) -> bool {
    forall|j: int|
        0 <= j < h.len() ==> (#[trigger] spec_encode_frame(FrameType::Chat, encode_utf8(h[j]))) is Ok
}

/// The client `c` when a replay stopped after handing over the first `j`
/// history frames of `frames` and the first `k` of its pending messages.
pub open spec fn replay_stop(c: ClientView, frames: Seq<Seq<u8>>, j: int, k: int) -> ClientView {
    ClientView {
        pending: c.pending.subrange(k, c.pending.len() as int),
        delivered: c.delivered + frames.subrange(0, j) + c.pending.subrange(0, k),
        ..c
    }
}

/// Whether the client `d` is ready for live messages and was handed, after
/// what `c` had been handed, the history `frames` and then `c`'s pending
/// messages, before anything else.
pub open spec fn replayed_to(d: ClientView, c: ClientView, frames: Seq<Seq<u8>>) -> bool {
    d.ready && (c.delivered + frames + c.pending).is_prefix_of(d.delivered)
}

impl ServerState {
    /// Registers a client that connected from `addr`, whose outbound queue
    /// is `writer` and whose handshake named `username`; it first replays the
    /// history.  Refused when the server is full or the address holds its
    /// share of clients.
    pub fn begin_session(
        &mut self,
        addr: PeerAddr,
        writer: SyncSender<Vec<u8>>,
        username: &str,
    ) -> (r: Result<ClientToken, ServerError>)
        requires
            old(self).wf(),
        ensures
            final(self).wf(),
            final(self).history() == old(self).history(),
            r is Ok <==> !(old(self).clients().len() >= crate::server::registry::MAX_CONNECTIONS
                || crate::server::registry::count_ip(old(self).clients(), addr.ip)
                >= crate::server::registry::MAX_CONNECTIONS_PER_IP || old(self).next_token()
                == u64::MAX),
            r is Err ==> (r matches Err(ServerError::ConnectionLimitReached)) && final(self).clients()
                == old(self).clients(),
            r matches Ok(token) ==> final(self).clients() == old(self).clients().push(
                ClientView {
                    addr,
                    token,
                    writer,
                    username: Some(username@),
                    ready: false,
                    pending: Seq::<Seq<u8>>::empty(),
                    delivered: Seq::<Seq<u8>>::empty(),
                },
            ),
    {
        let ghost before = self.clients();
        let ghost w = writer;
        let token = match self.register_client_with_status(addr, writer, false) {
            Ok(token) => token,
            Err(error) => return Err(error),
        };
        let ghost pushed = self.clients();
        proof {
            lemma_find_target_from(pushed, addr, token, 0);
            assert(is_target(pushed[before.len() as int], addr, token));
            assert forall|j: int| 0 <= j < before.len() implies !is_target(pushed[j], addr, token) by {
                assert(pushed[j] == before[j]);
            }
        }
        match self.set_client_username(addr, &token, username) {
            Ok(()) => {},
            Err(error) => {
                self.remove_client_if_current(addr, &token);
                return Err(error);
            },
        }
        proof {
            assert(self.clients() =~= before.push(
                ClientView {
                    addr,
                    token,
                    writer: w,
                    username: Some(username@),
                    ready: false,
                    pending: Seq::<Seq<u8>>::empty(),
                    delivered: Seq::<Seq<u8>>::empty(),
                },
            ));
        }
        Ok(token)
    }

    /// Sends `addr`'s registration named by `token` the recorded history,
    /// one chat frame per message, then the messages that waited meanwhile,
    /// and marks it ready for live messages.  Stops at the first history
    /// message too long for a frame, or the first message its outbound queue
    /// refuses.
    pub fn replay_history(&mut self, addr: PeerAddr, token: &ClientToken) -> (r: Result<
        (),
        ServerError,
    >)
        requires
            old(self).wf(),
        ensures
            final(self).wf(),
            final(self).history() == old(self).history(),
            registrations_within(final(self).clients(), old(self).clients()),
            match spec_find_target(old(self).clients(), addr, *token) {
                None => r matches Err(ServerError::UnknownClient) && final(self).clients() == old(self).clients(),
                Some(i) => {
                    let c = old(self).clients()[i];
                    let frames = history_frames(old(self).history());
                    &&& r is Ok ==> final(self).clients() == old(self).clients().update(
                        i,
                        ClientView {
                            ready: true,
                            pending: Seq::<Seq<u8>>::empty(),
                            delivered: c.delivered + frames + c.pending,
                            ..c
                        },
                    )
                    &&& (r matches Err(ServerError::MessageTooLong)) ==> !history_fits(old(self).history())
                    &&& !history_fits(old(self).history()) ==> r is Err
                    &&& r is Err ==> (r matches Err(ServerError::MessageTooLong) || r matches Err(
                        ServerError::OutboundQueueFull,
                    ) || r matches Err(ServerError::OutboundWriterGone)) && exists|j: int, k: int|
                        0 <= j <= frames.len() && 0 <= k <= c.pending.len() && (k > 0 ==> j
                            == frames.len()) && final(self).clients() == old(self).clients().update(
                            i,
                            #[trigger] replay_stop(c, frames, j, k),
                        )
                },
            },
    {
        let (_writer, history) = match self.history_snapshot(addr, token) {
            Ok(found) => found,
            Err(error) => return Err(error),
        };
        proof {
            lemma_find_target_from(self.clients(), addr, *token, 0);
        }
        let ghost s0 = self.clients();
        let ghost i = spec_find_target(s0, addr, *token)->Some_0;
        let ghost c = s0[i];
        let ghost frames = history_frames(old(self).history());
        proof {
            assert(c.pending.subrange(0, c.pending.len() as int) =~= c.pending);
            assert(c.delivered + frames.subrange(0, 0) + c.pending.subrange(0, 0) =~= c.delivered);
            assert(replay_stop(c, frames, 0, 0) == c);
            assert(s0.update(i, replay_stop(c, frames, 0, 0)) =~= s0);
            assert forall|j: int, k: int|
                registrations_within(s0.update(i, #[trigger] replay_stop(c, frames, j, k)), s0) by {
                lemma_update_within(s0, i, replay_stop(c, frames, j, k));
            }
        }
        let mut k: usize = 0;
        while k < history.len()
            invariant
                spec_find_target(s0, addr, *token) == Some(i),
                0 <= i < s0.len(),
                s0 == old(self).clients(),
                c == s0[i],
                is_target(c, addr, *token),
                frames == history_frames(old(self).history()),
                string_views(history@) == old(self).history(),
                self.wf(),
                self.history() == old(self).history(),
                self.clients() == s0.update(i, replay_stop(c, frames, k as int, 0)),
                k <= history@.len(),
                forall|j: int|
                    0 <= j < k ==> (#[trigger] spec_encode_frame(
                        FrameType::Chat,
                        encode_utf8(old(self).history()[j]),
                    )) is Ok,
            decreases history@.len() - k,
        {
            let ghost cur = self.clients();
            let ghost line = old(self).history()[k as int];
            assert(history@[k as int]@ == line);
            proof {
                lemma_find_target_update(s0, addr, *token, i, replay_stop(c, frames, k as int, 0));
            }
            let frame = match chat_frame(history[k].as_str()) {
                Ok(frame) => frame,
                Err(error) => {
                    proof {
                        assert(!history_fits(old(self).history()));
                        assert(self.clients() == s0.update(i, replay_stop(c, frames, k as int, 0)));
                    }
                    return Err(error);
                },
            };
            assert(frame@ == frames[k as int]);
            match self.deliver_to(addr, token, frame) {
                Ok(()) => {},
                Err(error) => {
                    assert(self.clients() == s0.update(i, replay_stop(c, frames, k as int, 0)));
                    return Err(error);
                },
            }
            proof {
                assert(cur[i] == replay_stop(c, frames, k as int, 0));
                assert(c.delivered + frames.subrange(0, k + 1) + c.pending.subrange(0, 0)
                    =~= (c.delivered + frames.subrange(0, k as int) + c.pending.subrange(0, 0)).push(frames[k as int]));
                assert(with_delivered(cur[i], frames[k as int]) == replay_stop(c, frames, k + 1, 0));
                assert(self.clients() =~= s0.update(i, replay_stop(c, frames, k + 1, 0)));
            }
            k = k + 1;
        }
        let ghost c2 = replay_stop(c, frames, frames.len() as int, 0);
        proof {
            lemma_find_target_update(s0, addr, *token, i, c2);
            assert(frames.subrange(0, frames.len() as int) =~= frames);
            assert(c2.delivered =~= c.delivered + frames);
            assert(c2.pending =~= c.pending);
            assert(history_fits(old(self).history()));
        }
        let r = self.mark_client_ready(addr, token);
        proof {
            let mid = s0.update(i, c2);
            assert(mid[i] == c2);
            if r is Ok {
                lemma_update_within(
                    s0,
                    i,
                    ClientView {
                        ready: true,
                        pending: Seq::<Seq<u8>>::empty(),
                        delivered: c.delivered + frames + c.pending,
                        ..c
                    },
                );
                assert(self.clients() =~= s0.update(
                    i,
                    ClientView {
                        ready: true,
                        pending: Seq::<Seq<u8>>::empty(),
                        delivered: c.delivered + frames + c.pending,
                        ..c
                    },
                ));
            } else {
                let kk = choose|kk: int|
                    0 <= kk < c2.pending.len() && self.clients() == mid.update(
                        i,
                        ClientView {
                            pending: c2.pending.subrange(kk, c2.pending.len() as int),
                            delivered: c2.delivered + c2.pending.subrange(0, kk),
                            ..c2
                        },
                    );
                assert(replay_stop(c, frames, frames.len() as int, kk) == ClientView {
                    pending: c2.pending.subrange(kk, c2.pending.len() as int),
                    delivered: c2.delivered + c2.pending.subrange(0, kk),
                    ..c2
                });
                assert(self.clients() =~= s0.update(i, replay_stop(c, frames, frames.len() as int, kk)));
            }
        }
        r
    }

    /// Starts a registered session: replays the history to it, tells every
    /// client the new list of users, then records and delivers the
    /// announcement that `username` joined (and the list again, when that
    /// delivery dropped a client).
    pub fn start_session(&mut self, addr: PeerAddr, token: &ClientToken, username: &str) -> (r:
        Result<(), ServerError>)
        requires
            old(self).wf(),
        ensures
            final(self).wf(),
            spec_find_target(old(self).clients(), addr, *token) is None ==> (r matches Err(ServerError::UnknownClient)) && final(self).clients() == old(self).clients() && final(self).history() == old(self).history(),
            spec_find_target(old(self).clients(), addr, *token) is Some ==> !(r matches Err(ServerError::UnknownClient)),
            (r matches Err(ServerError::MessageTooLong)) ==> !history_fits(old(self).history())
                || spec_announcement_frame(spec_join_message(username@)) is Err,
            !history_fits(old(self).history()) || spec_announcement_frame(spec_join_message(username@)) is Err ==> r is Err,
            registrations_within(final(self).clients(), old(self).clients()),
            r is Ok ==> (spec_find_target(old(self).clients(), addr, *token) matches Some(i)
                && forall|j: int|
                0 <= j < final(self).clients().len() && is_target(
                    #[trigger] final(self).clients()[j],
                    addr,
                    *token,
                ) ==> replayed_to(
                    final(self).clients()[j],
                    old(self).clients()[i],
                    history_frames(old(self).history()),
                )),
            r is Ok ==> exists|listed: Seq<ClientView>, after: Seq<ClientView>|
                #[trigger] delivered_to_all(
                    listed,
                    spec_announcement_frame(spec_join_message(username@))->Ok_0,
                    after,
                ) && registrations_within(listed, old(self).clients()) && (final(self).clients()
                    == after || after.len() < listed.len() && clients_grown_from(
                    final(self).clients(),
                    after,
                ) && registrations_within(final(self).clients(), after) && presence_delivered(
                    final(self).clients(),
                )),
            r is Ok ==> spec_announcement_frame(spec_join_message(username@)) is Ok
                && final(self).history() == history_with(
                old(self).history(),
                spec_join_message(username@),
            ),
            r is Err ==> final(self).history() == old(self).history() || final(self).history()
                == history_with(old(self).history(), spec_join_message(username@)),
    {
        match self.replay_history(addr, token) {
            Ok(()) => {},
            Err(error) => return Err(error),
        }
        let ghost replayed = self.clients();
        proof {
            lemma_grown_refl(replayed);
            self.lemma_tokens_distinct();
            lemma_find_target_from(old(self).clients(), addr, *token, 0);
        }
        match self.broadcast_presence() {
            Ok(()) => {},
            Err(error) => return Err(error),
        }
        let join = join_message(username);
        let frame = match announcement_frame(join.as_str()) {
            Ok(frame) => frame,
            Err(error) => return Err(error),
        };
        let ghost listed = self.clients();
        let dropped = self.record_and_broadcast(join.as_str(), frame.as_slice(), None);
        let ghost announced = self.clients();
        proof {
            let sent = choose|sent: Seq<bool>|
                sent.len() == listed.len() && spec_broadcast(listed, frame@, None, sent) == (
                    announced,
                    dropped,
                );
            assert(spec_broadcast(listed, frame@, None, sent).0 == announced);
            assert(delivered_to_all(listed, frame@, announced));
        }
        if dropped {
            match self.broadcast_presence() {
                Ok(()) => {},
                Err(error) => return Err(error),
            }
            proof {
                lemma_grown_trans(self.clients(), announced, listed);
            }
        }
        proof {
            lemma_grown_trans(self.clients(), listed, replayed);
            let f = spec_announcement_frame(spec_join_message(username@))->Ok_0;
            assert(f == frame@);
            assert(delivered_to_all(listed, f, announced));
            assert(registrations_within(listed, old(self).clients()));
            let i = spec_find_target(old(self).clients(), addr, *token)->Some_0;
            let c = old(self).clients()[i];
            let frames = history_frames(old(self).history());
            let c1 = ClientView {
                ready: true,
                pending: Seq::<Seq<u8>>::empty(),
                delivered: c.delivered + frames + c.pending,
                ..c
            };
            assert(replayed == old(self).clients().update(i, c1));
            assert forall|j: int|
                0 <= j < self.clients().len() && is_target(
                    #[trigger] self.clients()[j],
                    addr,
                    *token,
                ) implies replayed_to(self.clients()[j], c, frames) by {
                assert(grown_from_some(self.clients()[j], replayed));
                let k = choose|k: int|
                    0 <= k < replayed.len() && #[trigger] grown_from(self.clients()[j], replayed[k]);
                assert(replayed[i] == c1);
                assert(replayed[k].token == replayed[i].token);
                assert(k == i);
            }
        }
        Ok(())
    }

    /// Records and delivers the chat line of `username` saying `content` at
    /// `timestamp`; when that delivery dropped a client, every client gets
    /// the new list of users.
    pub fn accept_chat(&mut self, username: &str, timestamp: &str, content: &str) -> (r: Result<
        (),
        ServerError,
    >)
        requires
            old(self).wf(),
        ensures
            final(self).wf(),
            chat_outcome(
                old(self).clients(),
                old(self).history(),
                final(self).clients(),
                final(self).history(),
                r,
                spec_chat_line(username@, timestamp@, content@),
            ),
    {
        let message = format_chat_message(username, timestamp, content);
        let frame = match chat_frame(message.as_str()) {
            Ok(frame) => frame,
            Err(error) => return Err(error),
        };
        let ghost before = self.clients();
        let dropped = self.record_and_broadcast(message.as_str(), frame.as_slice(), None);
        let ghost after = self.clients();
        proof {
            let sent = choose|sent: Seq<bool>|
                sent.len() == before.len() && spec_broadcast(before, frame@, None, sent) == (
                    after,
                    dropped,
                );
            assert(spec_broadcast(before, frame@, None, sent).0 == after);
            assert(delivered_to_all(before, frame@, after));
        }
        if dropped {
            let r = self.broadcast_presence();
            proof {
                assert(delivered_to_all(before, frame@, after));
            }
            return r;
        }
        Ok(())
    }

    /// Records and delivers the chat line of `username` saying `content`,
    /// stamped with the local time of day read from the clock, written
    /// `HH:MM`.
    pub fn accept_chat_now(&mut self, username: &str, content: &str) -> (r: Result<
        (),
        ServerError,
    >)
        requires
            old(self).wf(),
        ensures
            final(self).wf(),
            exists|t: Seq<char>|
                #[trigger] is_clock_time(t) && chat_outcome(
                    old(self).clients(),
                    old(self).history(),
                    final(self).clients(),
                    final(self).history(),
                    r,
                    spec_chat_line(username@, t, content@),
                ),
            exists|hour: nat, minute: nat|
                hour < 24 && minute < 60 && #[trigger] chat_outcome(
                    old(self).clients(),
                    old(self).history(),
                    final(self).clients(),
                    final(self).history(),
                    r,
                    spec_chat_line(username@, spec_clock_stamp(hour, minute), content@),
                ),
    {
        let (hour, minute) = local_clock_time();
        let timestamp = clock_stamp(hour, minute);
        let r = self.accept_chat(username, timestamp.as_str(), content);
        proof {
            lemma_clock_stamp_reads_back(hour as nat, minute as nat);
            assert(is_clock_time(timestamp@));
            assert(chat_outcome(
                old(self).clients(),
                old(self).history(),
                self.clients(),
                self.history(),
                r,
                spec_chat_line(username@, spec_clock_stamp(hour as nat, minute as nat), content@),
            ));
        }
        r
    }

    /// Ends the session of `addr`'s registration named by `token`.  When it
    /// was still registered it is removed, and, if `username` had joined,
    /// the announcement that it left is recorded and delivered to every
    /// client left, and every client gets the new list of users.  A session
    /// that is no longer registered is left alone, so ending a session twice
    /// is ending it once.  No registration is added.
    pub fn finish_session(
        &mut self,
        addr: PeerAddr,
        username: &str,
        token: &ClientToken,
        announce_leave: bool,
    ) -> (r: Result<(), ServerError>)
        requires
            old(self).wf(),
        ensures
            final(self).wf(),
            !holds_registration(final(self).clients(), addr, *token),
            registrations_within(
                final(self).clients(),
                spec_remove_target(old(self).clients(), addr, *token),
            ),
            !holds_registration(old(self).clients(), addr, *token) ==> r is Ok && final(self).clients()
                == old(self).clients() && final(self).history() == old(self).history(),
            holds_registration(old(self).clients(), addr, *token) && !announce_leave ==> r is Ok
                && final(self).clients() == spec_remove_target(old(self).clients(), addr, *token)
                && final(self).history() == old(self).history(),
            holds_registration(old(self).clients(), addr, *token) && announce_leave ==> match spec_announcement_frame(
                spec_leave_message(username@),
            ) {
                Err(_) => r matches Err(ServerError::MessageTooLong) && final(self).clients()
                    == spec_remove_target(old(self).clients(), addr, *token) && final(self).history()
                    == old(self).history(),
                Ok(f) => {
                    &&& (r is Ok || r matches Err(ServerError::OutboundQueueFull))
                    &&& final(self).history() == history_with(
                        old(self).history(),
                        spec_leave_message(username@),
                    )
                    &&& exists|left: Seq<ClientView>|
                        #[trigger] delivered_to_all(
                            spec_remove_target(old(self).clients(), addr, *token),
                            f,
                            left,
                        ) && registrations_within(final(self).clients(), left) && clients_grown_from(
                            final(self).clients(),
                            left,
                        )
                    &&& r is Ok ==> presence_delivered(final(self).clients())
                },
            },
    {
        if !self.remove_client_if_current(addr, token) {
            return Ok(());
        }
        let ghost removed = self.clients();
        if !announce_leave {
            return Ok(());
        }
        let leave = leave_message(username);
        let frame = match announcement_frame(leave.as_str()) {
            Ok(frame) => frame,
            Err(error) => return Err(error),
        };
        self.record_and_broadcast(leave.as_str(), frame.as_slice(), None);
        let ghost left = self.clients();
        proof {
            let sent = choose|sent: Seq<bool>|
                sent.len() == removed.len() && spec_broadcast(removed, frame@, None, sent).0 == left;
            assert(spec_broadcast(removed, frame@, None, sent).0 == left);
            assert(delivered_to_all(removed, frame@, left));
        }
        let r = self.broadcast_presence();
        proof {
            assert(registrations_within(self.clients(), left));
            let f = spec_announcement_frame(spec_leave_message(username@))->Ok_0;
            assert(f == frame@);
            assert(delivered_to_all(spec_remove_target(old(self).clients(), addr, *token), f, left));
        }
        r
    }
}

} // verus!
