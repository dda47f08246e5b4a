//! How the client turns what the server sends into events for the user
//! interface: frames of the framed protocol, and the newline-separated lines
//! of the line protocol.

use crate::protocol::frame::{
    bytes_result, encode_frame, spec_encode_frame, Frame, FrameError, FrameType,
};
use crate::protocol::presence::{parse_presence, spec_parse_presence, string_views};
use crate::protocol::users_event::{parse_users_event, spec_parse_users_event, views_of};
use crate::server::history::{spec_trim_newlines, trim_newlines};
use crate::text::{
    chars_have_non_whitespace, chars_of, decode_lossy, has_non_whitespace, push_char, str_from_utf8,
    utf8_lossy,
    string_from_chars,
};
use std::sync::mpsc::SyncSender;
use vstd::prelude::*;
use vstd::slice::slice_subrange;
use vstd::string::*;
use vstd::utf8::{decode_utf8, encode_utf8, valid_utf8};

verus! {

/// How many events wait for the user interface at most.
pub const NETWORK_EVENT_CAPACITY: usize = 256;

/// What the connection tells the user interface.
pub enum NetworkEvent {
    Message(String),
    UserList(Vec<String>),
    Disconnected(String),
}

/// An event as plain values.
pub enum EventView {
    Message(Seq<char>),
    UserList(Seq<Seq<char>>),
    Disconnected(Seq<char>),
}

/// An event as plain values.
pub open spec fn event_view(e: NetworkEvent) -> EventView {
    match e {
        NetworkEvent::Message(m) => EventView::Message(m@),
        NetworkEvent::UserList(users) => EventView::UserList(string_views(users@)),
        NetworkEvent::Disconnected(reason) => EventView::Disconnected(reason@),
    }
}

/// An optional event as plain values.
pub open spec fn opt_event_view(e: Option<NetworkEvent>) -> Option<EventView> {
    match e {
        Some(e) => Some(event_view(e)),
        None => None,
    }
}

/// Events as plain values.
pub open spec fn event_views(v: Seq<NetworkEvent>) -> Seq<EventView> {
    v.map_values(|e: NetworkEvent| event_view(e))
}

/// What a frame from the server gives: the event it raises, if any, and
/// whether the connection stays up.  Chat frames must be well-formed UTF-8
/// and are skipped when blank; presence frames must be well formed; the
/// server never sends a handshake.
pub open spec fn spec_frame_event(f: Frame) -> (Option<EventView>, bool) {
    match f.kind {
        FrameType::Chat => if !valid_utf8(f.payload@) {
            (Some(EventView::Disconnected("server sent invalid UTF-8 chat payload"@)), false)
        } else if !has_non_whitespace(decode_utf8(f.payload@)) {
            (None, true)
        } else {
            (Some(EventView::Message(decode_utf8(f.payload@))), true)
        },
        FrameType::Presence => match spec_parse_presence(f.payload@) {
            Some(users) => (Some(EventView::UserList(users)), true),
            None => (
                Some(EventView::Disconnected("server sent an invalid presence payload"@)),
                false,
            ),
        },
        FrameType::Handshake => (
            Some(EventView::Disconnected("server sent an unexpected handshake frame"@)),
            false,
        ),
    }
}

/// The event a frame from the server raises, if any, and whether the
/// connection stays up.
pub fn frame_event(frame: Frame) -> (r: (Option<NetworkEvent>, bool))
    ensures
        (opt_event_view(r.0), r.1) == spec_frame_event(frame),
{
    match frame.kind {
        FrameType::Chat => {
            let message = match str_from_utf8(frame.payload.as_slice()) {
                Some(message) => message,
                None => {
                    let reason = "server sent invalid UTF-8 chat payload".to_owned();
                    return (Some(NetworkEvent::Disconnected(reason)), false);
                },
            };
            if !chars_have_non_whitespace(&chars_of(message)) {
                return (None, true);
            }
            (Some(NetworkEvent::Message(message.to_owned())), true)
        },
        FrameType::Presence => match parse_presence(frame.payload.as_slice()) {
            Some(users) => (Some(NetworkEvent::UserList(users)), true),
            None => {
                let reason = "server sent an invalid presence payload".to_owned();
                (Some(NetworkEvent::Disconnected(reason)), false)
            },
        },
        FrameType::Handshake => {
            let reason = "server sent an unexpected handshake frame".to_owned();
            (Some(NetworkEvent::Disconnected(reason)), false)
        },
    }
}

/// Calls `SyncSender::send`, which waits for room in the queue; an event
/// whose receiver is gone is dropped.  Nothing comes back to state.
#[verifier::external_body]
fn send_event(tx: &SyncSender<NetworkEvent>, event: NetworkEvent) {
    let _ = tx.send(event);
}

/// The sending end of the event queue, with the events handed to it so far.
pub struct EventSender {
    tx: SyncSender<NetworkEvent>,
    sent: Ghost<Seq<EventView>>,
}

impl EventSender {
    /// The events handed over so far, oldest first.
    pub closed spec fn sent(&self) -> Seq<EventView> {
        self.sent@
    }

    /// Sends events into `tx`; nothing has been handed over yet.
    pub fn new(tx: SyncSender<NetworkEvent>) -> (r: EventSender)
        ensures
            r.sent() == Seq::<EventView>::empty(),
    {
        EventSender { tx, sent: Ghost(Seq::empty()) }
    }

    /// Hands `event` to the queue, waiting for room.
    pub fn send(&mut self, event: NetworkEvent)
        ensures
            final(self).sent() == old(self).sent().push(event_view(event)),
    {
        let ghost v = event_view(event);
        send_event(&self.tx, event);
        self.sent = Ghost(self.sent@.push(v));
    }
}

/// An optional event as a sequence of none or one event.
pub open spec fn opt_seq(e: Option<EventView>) -> Seq<EventView> {
    match e {
        Some(e) => seq![e],
        None => seq![],
    }
}

/// Hands the event a frame raises, if any, to `tx`, and tells whether the
/// connection stays up.
pub fn process_frame(frame: Frame, tx: &mut EventSender) -> (r: bool)
    ensures
        r == spec_frame_event(frame).1,
        final(tx).sent() == old(tx).sent() + opt_seq(spec_frame_event(frame).0),
{
    let (event, keep) = frame_event(frame);
    let ghost e = opt_event_view(event);
    if let Some(event) = event {
        tx.send(event);
    }
    assert(old(tx).sent() + opt_seq(e) =~= tx.sent());
    keep
}

/// The frame that opens a session: a handshake carrying the user name.
pub fn handshake_frame(username: &str) -> (r: Result<Vec<u8>, FrameError>)
    ensures
        bytes_result(r) == spec_encode_frame(FrameType::Handshake, encode_utf8(username@)),
{
    encode_frame(FrameType::Handshake, username.as_bytes())
}

/// The frame that carries a chat line the user sends, ended by a newline.
pub fn outgoing_chat_frame(line: &str) -> (r: Result<Vec<u8>, FrameError>)
    ensures
        bytes_result(r) == spec_encode_frame(FrameType::Chat, encode_utf8(line@.push('\n'))),
{
    let mut wire = line.to_owned();
    push_char(&mut wire, '\n');
    encode_frame(FrameType::Chat, wire.as_str().as_bytes())
}

/// The newline-separated fields of `s`; the last one is what follows the
/// last newline.
pub open spec fn spec_split_lines(s: Seq<char>) -> Seq<Seq<char>>
    decreases s.len(),
{
    if s.len() == 0 {
        seq![seq![]]
    } else {
        let fields = spec_split_lines(s.drop_last());
        if s.last() == '\n' {
            fields.push(seq![])
        } else {
            fields.update(fields.len() - 1, fields.last().push(s.last()))
        }
    }
}

/// Splitting always gives at least one field.
proof fn lemma_split_lines_nonempty(s: Seq<char>)
    ensures
        spec_split_lines(s).len() >= 1,
    decreases s.len(),
{
    if s.len() > 0 {
        lemma_split_lines_nonempty(s.drop_last());
    }
}

/// What one complete line raises: nothing when blank, the user list when it
/// is a user-list event, the line as a message otherwise.
pub open spec fn spec_line_event(line: Seq<char>) -> Option<EventView> {
    if !has_non_whitespace(line) {
        None
    } else {
        match spec_parse_users_event(line) {
            Some(users) => Some(EventView::UserList(users)),
            None => Some(EventView::Message(line)),
        }
    }
}

/// What complete lines raise, in order.
pub open spec fn spec_line_events(lines: Seq<Seq<char>>) -> Seq<EventView>
    decreases lines.len(),
{
    if lines.len() == 0 {
        seq![]
    } else {
        let rest = spec_line_events(lines.drop_last());
        match spec_line_event(lines.last()) {
            Some(e) => rest.push(e),
            None => rest,
        }
    }
}

/// Text without a newline is a single field.
proof fn lemma_split_lines_single(s: Seq<char>)
    requires
        !s.contains('\n'),
    ensures
        spec_split_lines(s) == seq![s],
    decreases s.len(),
{
    if s.len() == 0 {
        assert(s =~= Seq::<char>::empty());
    } else {
        let d = s.drop_last();
        assert(!d.contains('\n')) by {
            if d.contains('\n') {
                let k = choose|k: int| 0 <= k < d.len() && d[k] == '\n';
                assert(s[k] == '\n');
            }
        }
        lemma_split_lines_single(d);
        assert(s[s.len() - 1] != '\n');
        assert(d.push(s.last()) =~= s);
        assert(seq![d].update(0, d.push(s.last())) =~= seq![s]);
    }
}

/// The last field holds no newline.
proof fn lemma_split_lines_last(s: Seq<char>)
    ensures
        spec_split_lines(s).len() >= 1,
        !spec_split_lines(s).last().contains('\n'),
    decreases s.len(),
{
    if s.len() > 0 {
        lemma_split_lines_last(s.drop_last());
        let f = spec_split_lines(s.drop_last());
        if s.last() != '\n' {
            let l = f.last().push(s.last());
            assert(!l.contains('\n')) by {
                if l.contains('\n') {
                    let k = choose|k: int| 0 <= k < l.len() && l[k] == '\n';
                    if k < f.last().len() {
                        assert(f.last()[k] == '\n');
                    }
                }
            }
        } else {
            assert(!Seq::<char>::empty().contains('\n'));
        }
    }
}

/// Splitting `s` followed by `b` gives the complete fields of `s`, then the
/// fields of its last field followed by `b`.
proof fn lemma_split_lines_append(s: Seq<char>, b: Seq<char>)
    ensures
        spec_split_lines(s + b) == spec_split_lines(s).drop_last() + spec_split_lines(
            spec_split_lines(s).last() + b,
        ),
    decreases b.len(),
{
    lemma_split_lines_last(s);
    let f = spec_split_lines(s);
    if b.len() == 0 {
        assert(s + b =~= s);
        assert(f.last() + b =~= f.last());
        lemma_split_lines_single(f.last());
        assert(f.drop_last() + seq![f.last()] =~= f);
    } else {
        let bd = b.drop_last();
        lemma_split_lines_append(s, bd);
        assert((s + b).drop_last() =~= s + bd);
        assert((s + b).last() == b.last());
        assert((f.last() + b).drop_last() =~= f.last() + bd);
        assert((f.last() + b).last() == b.last());
        let g = spec_split_lines(f.last() + bd);
        lemma_split_lines_nonempty(f.last() + bd);
        if b.last() == '\n' {
            assert(f.drop_last() + g.push(seq![]) =~= (f.drop_last() + g).push(seq![]));
        } else {
            assert(f.drop_last() + g.update(g.len() - 1, g.last().push(b.last())) =~= (f.drop_last()
                + g).update((f.drop_last() + g).len() - 1, (f.drop_last() + g).last().push(b.last())));
        }
    }
}

/// The events of two runs of complete lines are the events of each, in
/// order.
proof fn lemma_line_events_append(a: Seq<Seq<char>>, b: Seq<Seq<char>>)
    ensures
        spec_line_events(a + b) == spec_line_events(a) + spec_line_events(b),
    decreases b.len(),
{
    if b.len() == 0 {
        assert(a + b =~= a);
        assert(spec_line_events(a) + seq![] =~= spec_line_events(a));
    } else {
        lemma_line_events_append(a, b.drop_last());
        assert((a + b).drop_last() =~= a + b.drop_last());
        assert((a + b).last() == b.last());
        match spec_line_event(b.last()) {
            Some(e) => {
                assert(spec_line_events(a) + spec_line_events(b.drop_last()).push(e) =~= (
                spec_line_events(a) + spec_line_events(b.drop_last())).push(e));
            },
            None => {},
        }
    }
}

/// Law: how the text is cut into reads does not matter: taking `a` and then
/// `b` raises the events that taking them at once raises, and leaves the
/// same text waiting.
pub proof fn lemma_reads_compose(pending: Seq<char>, a: Seq<char>, b: Seq<char>)
    ensures
        ({
            let first = spec_split_lines(pending + a);
            let second = spec_split_lines(first.last() + b);
            let whole = spec_split_lines(pending + (a + b));
            &&& spec_line_events(first.drop_last()) + spec_line_events(second.drop_last())
                == spec_line_events(whole.drop_last())
            &&& second.last() == whole.last()
        }),
{
    let first = spec_split_lines(pending + a);
    let second = spec_split_lines(first.last() + b);
    assert(pending + (a + b) =~= (pending + a) + b);
    lemma_split_lines_append(pending + a, b);
    let whole = spec_split_lines(pending + (a + b));
    assert(whole == first.drop_last() + second);
    lemma_split_lines_nonempty(first.last() + b);
    assert(whole.drop_last() =~= first.drop_last() + second.drop_last());
    assert(whole.last() == second.last());
    lemma_line_events_append(first.drop_last(), second.drop_last());
}

/// The event one complete line raises.
fn line_event(line: String) -> (r: Option<NetworkEvent>)
    ensures
        opt_event_view(r) == spec_line_event(line@),
{
    if !chars_have_non_whitespace(&chars_of(line.as_str())) {
        return None;
    }
    match parse_users_event(line.as_str()) {
        Some(users) => {
            assert(string_views(users@) == views_of(users@));
            Some(NetworkEvent::UserList(users))
        },
        None => Some(NetworkEvent::Message(line)),
    }
}

/// Collects the text the server sends in the line protocol and cuts it into
/// lines.
pub struct LineReader {
    pending: String,
}

impl LineReader {
    /// The text received after the last newline.
    pub closed spec fn pending(&self) -> Seq<char> {
        self.pending@
    }

    /// A reader that has received nothing.
    pub fn new() -> (r: LineReader)
        ensures
            r.pending() == Seq::<char>::empty(),
    {
        LineReader { pending: String::new() }
    }

    /// Takes the text of one read: the complete lines it finishes raise
    /// their events, in order, and what follows the last newline waits for
    /// the next read.
    pub fn push_text(&mut self, text: &str) -> (events: Vec<NetworkEvent>)
        ensures
            final(self).pending() == spec_split_lines(old(self).pending() + text@).last(),
            event_views(events@) == spec_line_events(
                spec_split_lines(old(self).pending() + text@).drop_last(),
            ),
    {
        let mut all = chars_of(self.pending.as_str());
        let mut more = chars_of(text);
        all.append(&mut more);
        let ghost whole = old(self).pending() + text@;
        assert(all@ =~= whole);
        let n = all.len();
        let mut events: Vec<NetworkEvent> = Vec::new();
        let ghost mut done: Seq<Seq<char>> = seq![];
        let mut start: usize = 0;
        let mut i: usize = 0;
        assert(all@.subrange(0, 0) =~= Seq::<char>::empty());
        while i < n
            invariant
                n == all@.len(),
                start <= i <= n,
                spec_split_lines(all@.subrange(0, i as int)).drop_last() == done,
                spec_split_lines(all@.subrange(0, i as int)).last() == all@.subrange(
                    start as int,
                    i as int,
                ),
                event_views(events@) == spec_line_events(done),
            decreases n - i,
        {
            let ghost prev = all@.subrange(0, i as int);
            let ghost next = all@.subrange(0, i + 1);
            assert(next.drop_last() =~= prev);
            proof {
                lemma_split_lines_nonempty(prev);
            }
            let ghost fields = spec_split_lines(prev);
            if all[i] == '\n' {
                let line = string_from_chars(slice_subrange(all.as_slice(), start, i));
                let ghost old_done = done;
                proof {
                    done = done.push(line@);
                    assert(fields =~= old_done.push(all@.subrange(start as int, i as int)));
                    assert(spec_split_lines(next).drop_last() =~= done);
                    assert(spec_split_lines(next).last() =~= all@.subrange(i + 1, i + 1));
                    assert(done.drop_last() =~= old_done);
                }
                let ghost before = event_views(events@);
                match line_event(line) {
                    Some(event) => {
                        events.push(event);
                        assert(event_views(events@) =~= before.push(event_view(event)));
                    },
                    None => {},
                }
                start = i + 1;
            } else {
                proof {
                    assert(spec_split_lines(next).drop_last() =~= fields.drop_last());
                    assert(spec_split_lines(next).last() =~= all@.subrange(start as int, i + 1));
                }
            }
            i = i + 1;
        }
        assert(all@.subrange(0, n as int) =~= whole);
        self.pending = string_from_chars(slice_subrange(all.as_slice(), start, n));
        events
    }

    /// Takes the bytes of one read, decoded as UTF-8 with each invalid
    /// sequence replaced.
    pub fn push_bytes(&mut self, chunk: &[u8]) -> (events: Vec<NetworkEvent>)
        ensures
            final(self).pending() == spec_split_lines(old(self).pending() + utf8_lossy(chunk@)).last(),
            event_views(events@) == spec_line_events(
                spec_split_lines(old(self).pending() + utf8_lossy(chunk@)).drop_last(),
            ),
            valid_utf8(chunk@) ==> utf8_lossy(chunk@) == decode_utf8(chunk@),
    {
        let text = decode_lossy(chunk);
        self.push_text(text.as_str())
    }

    /// What the end of the stream raises: the unfinished last line, unless
    /// blank, then the notice that the server disconnected.
    pub fn finish(&self) -> (events: Vec<NetworkEvent>)
        ensures
            event_views(events@) == (if has_non_whitespace(self.pending()) {
                seq![EventView::Message(spec_trim_newlines(self.pending()))]
            } else {
                seq![]
            }) + seq![EventView::Disconnected("server disconnected"@)],
    {
        let mut events: Vec<NetworkEvent> = Vec::new();
        if chars_have_non_whitespace(&chars_of(self.pending.as_str())) {
            events.push(NetworkEvent::Message(trim_newlines(self.pending.as_str())));
        }
        events.push(NetworkEvent::Disconnected("server disconnected".to_owned()));
        assert(event_views(events@) =~= (if has_non_whitespace(self.pending()) {
            seq![EventView::Message(spec_trim_newlines(self.pending()))]
        } else {
            seq![]
        }) + seq![EventView::Disconnected("server disconnected"@)]);
        events
    }
}

} // verus!
