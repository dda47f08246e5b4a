//! What the chat client does with a key press, with the line the user
//! submits, and with the events the connection raises.

use crate::client::app::{
    keep_last, lemma_completions_len, log_view, same_but_log, same_session, spec_active_mention_query,
    spec_received,
    spec_next_selection, spec_previous_selection, ChatApp, MessageState, MESSAGE_LIMIT,
};
use crate::client::network::NetworkEvent;
use crate::clock::{
    clock_stamp, is_clock_time, lemma_clock_stamp_reads_back, local_clock_time, spec_clock_stamp,
};
use crate::io_types::{is_disconnect_kind, spec_is_disconnect_kind, IoKind};
use crate::protocol::chat::{format_chat_message, spec_chat_line};
use crate::protocol::presence::string_views;
use crate::text::{spec_rfind, spec_trim};
use vstd::prelude::*;
use vstd::string::*;

verus! {

/// A key the user pressed, as far as the client tells keys apart.
#[derive(Clone, Copy, Debug, PartialEq, Eq, Structural)]
pub enum Key {
    Char(char),
    Enter,
    Esc,
    Up,
    Down,
    Tab,
    Backspace,
    Other,
}

/// Whether the key press ends the session: Enter once an exit notice is
/// shown, otherwise Esc or Ctrl+Q.
pub open spec fn spec_key_quits(has_notice: bool, key: Key, control: bool) -> bool {
    if has_notice {
        key == Key::Enter
    } else {
        key == Key::Esc || (key == Key::Char('q') && control)
    }
}

/// Handles a key press: once an exit notice is shown only Enter (which
/// quits) counts; otherwise Esc and Ctrl+Q quit, Up and Down move the
/// mention selection, Tab completes the mention, Backspace deletes, other
/// characters without Ctrl are typed, and Enter asks for the input line to
/// be submitted, which the result tells.
pub fn handle_key(app: &mut ChatApp, key: Key, control: bool) -> (submit: bool)
    requires
        old(app).selection_in_range(),
    ensures
        submit == (old(app).exit_notice is None && key == Key::Enter),
        same_session(*old(app), *final(app)) || final(app).should_quit,
        final(app).username == old(app).username,
        final(app).connected == old(app).connected,
        final(app).exit_notice == old(app).exit_notice,
        final(app).should_quit == (old(app).should_quit || spec_key_quits(
            old(app).exit_notice is Some,
            key,
            control,
        )),
        final(app).messages@ == old(app).messages@,
        final(app).connected_users@ == old(app).connected_users@,
        final(app).selection_in_range(),
        old(app).exit_notice is Some ==> final(app).input == old(app).input
            && final(app).mention_selection == old(app).mention_selection,
        old(app).exit_notice is None ==> match key {
            Key::Backspace => final(app).mention_selection == 0 && final(app).input@ == if old(app).input@.len() > 0 {
                old(app).input@.drop_last()
            } else {
                old(app).input@
            },
            Key::Char(c) => if control {
                final(app).input == old(app).input && final(app).mention_selection == old(app).mention_selection
            } else {
                final(app).input@ == old(app).input@.push(c) && final(app).mention_selection == 0
            },
            Key::Up => final(app).input == old(app).input && final(app).mention_selection == if old(app).candidates().len() == 0 {
                old(app).mention_selection as int
            } else {
                spec_previous_selection(
                    old(app).mention_selection as int,
                    old(app).candidates().len() as int,
                )
            },
            Key::Down => final(app).input == old(app).input && final(app).mention_selection == if old(app).candidates().len() == 0 {
                old(app).mention_selection as int
            } else {
                spec_next_selection(
                    old(app).mention_selection as int,
                    old(app).candidates().len() as int,
                )
            },
            Key::Tab => if old(app).candidates().len() == 0 {
                final(app).input == old(app).input && final(app).mention_selection == old(app).mention_selection
            } else {
                final(app).mention_selection == 0 && final(app).input@ == old(app).input@.subrange(
                    0,
                    spec_rfind(old(app).input@, '@')->0,
                ) + seq!['@'] + old(app).candidates()[old(app).mention_selection as int] + seq![' ']
            },
            _ => final(app).input == old(app).input && final(app).mention_selection == old(app).mention_selection,
        },
{
    if app.has_exit_notice() {
        if key == Key::Enter {
            app.should_quit = true;
        }
        return false;
    }
    match key {
        Key::Char(c) => {
            if control {
                if c == 'q' {
                    app.should_quit = true;
                }
            } else {
                app.append_input(c);
            }
        },
        Key::Esc => {
            app.should_quit = true;
        },
        Key::Up => app.select_previous_mention(),
        Key::Down => {
            let users = app.connected_users.len();
            proof {
                match spec_active_mention_query(app.input@) {
                    Some(q) => lemma_completions_len(string_views(app.connected_users@), q),
                    None => {},
                }
            }
            assert(app.candidates().len() <= users);
            app.select_next_mention();
        },
        Key::Tab => app.apply_selected_mention(),
        Key::Enter => {
            return true;
        },
        Key::Backspace => app.pop_input(),
        Key::Other => {},
    }
    false
}

/// The notice logged when the user submits a line while offline.
pub open spec fn offline_notice() -> Seq<char> {
    "[system] message not sent because the client is offline"@
}

/// Takes the typed line for sending at `timestamp`: a blank line is
/// dropped; while offline the line is dropped with a notice in the log;
/// otherwise the result is the chat line to send.
pub fn take_submission_at(app: &mut ChatApp, timestamp: &str) -> (r: Option<String>)
    ensures
        final(app).input@ == Seq::<char>::empty(),
        same_session(*old(app), *final(app)),
        final(app).connected_users@ == old(app).connected_users@,
        final(app).mention_selection == old(app).mention_selection,
        spec_trim(old(app).input@).len() == 0 ==> r is None && final(app).messages@ == old(app).messages@,
        spec_trim(old(app).input@).len() > 0 && !old(app).connected ==> r is None && log_view(
            final(app).messages@,
        ) == keep_last(
            log_view(old(app).messages@).push((offline_notice(), MessageState::Confirmed)),
            MESSAGE_LIMIT as nat,
        ),
        spec_trim(old(app).input@).len() > 0 && old(app).connected ==> (r matches Some(line) && line@
            == spec_chat_line(old(app).username@, timestamp@, spec_trim(old(app).input@))
            && final(app).messages@ == old(app).messages@),
{
    let content = app.take_input();
    if content.as_str().unicode_len() == 0 {
        return None;
    }
    if !app.connected {
        let notice = "[system] message not sent because the client is offline".to_owned();
        app.push_message(notice, MessageState::Confirmed);
        return None;
    }
    Some(format_chat_message(app.username.as_str(), timestamp, content.as_str()))
}

/// Takes the typed line for sending, stamped with the local time of day
/// read from the clock, written `HH:MM`.
pub fn take_submission(app: &mut ChatApp) -> (r: Option<String>)
    ensures
        final(app).input@ == Seq::<char>::empty(),
        same_session(*old(app), *final(app)),
        spec_trim(old(app).input@).len() == 0 ==> r is None,
        spec_trim(old(app).input@).len() > 0 && !old(app).connected ==> r is None,
        spec_trim(old(app).input@).len() > 0 && old(app).connected ==> (r matches Some(line)
            && exists|t: Seq<char>|
            is_clock_time(t) && line@ == #[trigger] spec_chat_line(
                old(app).username@,
                t,
                spec_trim(old(app).input@),
            )),
        spec_trim(old(app).input@).len() > 0 && old(app).connected ==> (r matches Some(line)
            && exists|hour: nat, minute: nat|
            hour < 24 && minute < 60 && line@ == #[trigger] spec_chat_line(
                old(app).username@,
                spec_clock_stamp(hour, minute),
                spec_trim(old(app).input@),
            )),
{
    let (hour, minute) = local_clock_time();
    let timestamp = clock_stamp(hour, minute);
    let r = take_submission_at(app, timestamp.as_str());
    proof {
        lemma_clock_stamp_reads_back(hour as nat, minute as nat);
        if spec_trim(old(app).input@).len() > 0 && old(app).connected {
            assert(is_clock_time(timestamp@));
        }
    }
    r
}

/// Records that `line` went out: it joins the log as pending until the
/// server echoes it.
pub fn record_sent(app: &mut ChatApp, line: String)
    ensures
        log_view(final(app).messages@) == keep_last(
            log_view(old(app).messages@).push((line@, MessageState::Pending)),
            MESSAGE_LIMIT as nat,
        ),
        same_session(*old(app), *final(app)),
{
    app.push_message(line, MessageState::Pending);
}

/// Records that sending failed with an error of kind `kind` described by
/// `description`: a lost peer ends the session with an exit notice, any
/// other failure only takes the client offline.  Tells whether the failure
/// is to be reported as an error.
pub fn record_send_failure(app: &mut ChatApp, kind: IoKind, description: &str) -> (fatal: bool)
    ensures
        fatal == !spec_is_disconnect_kind(kind),
        !final(app).connected,
        spec_is_disconnect_kind(kind) ==> log_view(final(app).messages@) == keep_last(
            log_view(old(app).messages@).push(
                ("[system] server unavailable: "@ + description@, MessageState::Confirmed),
            ),
            MESSAGE_LIMIT as nat,
        ),
        spec_is_disconnect_kind(kind) ==> (final(app).exit_notice matches Some(n) && n@
            == "server unavailable: "@ + description@),
        !spec_is_disconnect_kind(kind) ==> log_view(final(app).messages@) == keep_last(
            log_view(old(app).messages@).push(
                ("[system] failed to send message: "@ + description@, MessageState::Confirmed),
            ),
            MESSAGE_LIMIT as nat,
        ) && final(app).exit_notice == old(app).exit_notice,
{
    if is_disconnect_kind(kind) {
        let mut reason = "server unavailable: ".to_owned();
        reason.append(description);
        let ghost r = reason@;
        app.begin_shutdown(reason);
        assert("[system] "@ + r =~= "[system] server unavailable: "@ + description@) by {
            reveal_strlit("[system] ");
            reveal_strlit("server unavailable: ");
            reveal_strlit("[system] server unavailable: ");
        }
        false
    } else {
        let mut reason = "failed to send message: ".to_owned();
        reason.append(description);
        let ghost r = reason@;
        app.mark_offline(reason);
        assert("[system] "@ + r =~= "[system] failed to send message: "@ + description@) by {
            reveal_strlit("[system] ");
            reveal_strlit("failed to send message: ");
            reveal_strlit("[system] failed to send message: ");
        }
        true
    }
}

/// Applies an event from the connection: a message is received, a user
/// list replaces the connected users, a disconnection ends the session.
pub fn apply_network_event(app: &mut ChatApp, event: NetworkEvent)
    ensures
        match event {
            NetworkEvent::Message(m) => same_but_log(*old(app), *final(app)) && spec_received(
                log_view(old(app).messages@),
                log_view(final(app).messages@),
                m@,
            ),
            NetworkEvent::UserList(users) => string_views(final(app).connected_users@)
                == string_views(users@) && final(app).messages@ == old(app).messages@
                && final(app).selection_in_range(),
            NetworkEvent::Disconnected(reason) => !final(app).connected && final(app).exit_notice
                == Some(reason) && log_view(final(app).messages@) == keep_last(
                log_view(old(app).messages@).push(
                    ("[system] "@ + reason@, MessageState::Confirmed),
                ),
                MESSAGE_LIMIT as nat,
            ),
        },
{
    match event {
        NetworkEvent::Message(message) => app.receive_message(message),
        NetworkEvent::UserList(users) => app.update_connected_users(users),
        NetworkEvent::Disconnected(reason) => app.begin_shutdown(reason),
    }
}

} // verus!
