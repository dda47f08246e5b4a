//! The registry of connected clients: admission limits, user names, the
//! readiness of each client, the messages queued for clients that are still
//! replaying history, and delivery to each client's outbound queue.

use crate::protocol::presence::{encode_presence, spec_encode_presence, string_views};
use crate::protocol::frame::bytes_result;
use crate::server::error::ServerError;
use crate::server::history::{MessageHistory, MESSAGE_HISTORY_LIMIT, spec_trim_newlines};
use crate::client::app::keep_last;
use std::sync::mpsc::{SyncSender, TrySendError};
use vstd::prelude::*;
use vstd::slice::slice_to_vec;
use vstd::string::*;

verus! {

/// How many clients the server holds at once.
pub const MAX_CONNECTIONS: usize = 256;

/// How many clients one address may hold at once.
pub const MAX_CONNECTIONS_PER_IP: usize = 4;

/// How many messages wait for a client that is still replaying history.
pub const PENDING_MESSAGES_LIMIT: usize = 128;

/// The capacity of a client's outbound queue.
pub const OUTBOUND_QUEUE_SIZE: usize = MESSAGE_HISTORY_LIMIT + PENDING_MESSAGES_LIMIT;

#[verifier::external_type_specification]
#[verifier::external_body]
#[verifier::reject_recursive_types(T)]
pub struct ExSyncSender<T>(SyncSender<T>);

/// The address a client connected from.
#[derive(Clone, Copy, Debug, PartialEq, Eq, Hash, Structural)]
pub enum PeerIp {
    V4(u32),
    V6(u128),
}

/// The address and port a client connected from.
#[derive(Clone, Copy, Debug, PartialEq, Eq, Hash, Structural)]
pub struct PeerAddr {
    pub ip: PeerIp,
    pub port: u16,
}

/// Identifies one registration of a client; no two registrations share one.
#[derive(Clone, Copy, Debug, PartialEq, Eq, Structural)]
pub struct ClientToken {
    id: u64,
}

impl ClientToken {
    /// The number behind the token.
    pub closed spec fn spec_id(self) -> nat {
        self.id as nat
    }

    /// The token with number `id`.
    fn new(id: u64) -> (r: ClientToken)
        ensures
            r.spec_id() == id,
    {
        ClientToken { id }
    }

    /// Whether two tokens name the same registration.
    pub fn matches(&self, other: &Self) -> (r: bool)
        ensures
            r == (*self == *other),
    {
        self.id == other.id
    }
}

/// What one attempt to queue a message for a client gave; a message that
/// was not queued comes back.
pub enum SendOutcome {
    Sent,
    Full(Vec<u8>),
    Disconnected(Vec<u8>),
}

/// Calls `SyncSender::try_send`, which queues the message without waiting
/// unless the queue is full or its receiver is gone, and then hands the
/// message back.  Which of the three happens depends on the receiving side;
/// the contract states only that a refused message comes back unchanged.
#[verifier::external_body]
pub(crate) fn try_send_bytes(writer: &SyncSender<Vec<u8>>, message: Vec<u8>) -> (r: SendOutcome)
    ensures
        r matches SendOutcome::Full(m) ==> m@ == message@,
        r matches SendOutcome::Disconnected(m) ==> m@ == message@,
{
    match writer.try_send(message) {
        Ok(()) => SendOutcome::Sent,
        Err(TrySendError::Full(m)) => SendOutcome::Full(m),
        Err(TrySendError::Disconnected(m)) => SendOutcome::Disconnected(m),
    }
}

/// Calls `SyncSender::clone`: another handle to the same queue.  The handle
/// is opaque, so nothing is stated of it.
#[verifier::external_body]
fn clone_writer(writer: &SyncSender<Vec<u8>>) -> SyncSender<Vec<u8>> {
    writer.clone()
}

/// A registered client.
pub struct ClientEntry {
    addr: PeerAddr,
    token: ClientToken,
    writer: SyncSender<Vec<u8>>,
    username: Option<String>,
    ready: bool,
    pending_messages: Vec<Vec<u8>>,
    delivered: Ghost<Seq<Seq<u8>>>,
}

/// A registered client as plain values.
pub struct ClientView {
    pub addr: PeerAddr,
    pub token: ClientToken,
    pub writer: SyncSender<Vec<u8>>,
    pub username: Option<Seq<char>>,
    pub ready: bool,
    pub pending: Seq<Seq<u8>>,
    /// The messages handed to the client's outbound queue, oldest first.
    pub delivered: Seq<Seq<u8>>,
}

/// The text of an optional string.
pub open spec fn opt_text(o: Option<String>) -> Option<Seq<char>> {
    match o {
        Some(s) => Some(s@),
        None => None,
    }
}

/// A sequence of byte vectors as byte sequences.
pub open spec fn byte_views(v: Seq<Vec<u8>>) -> Seq<Seq<u8>> {
    v.map_values(|m: Vec<u8>| m@)
}

/// A client entry as plain values.
pub closed spec fn client_view(c: ClientEntry) -> ClientView {
    ClientView {
        addr: c.addr,
        token: c.token,
        writer: c.writer,
        username: opt_text(c.username),
        ready: c.ready,
        pending: byte_views(c.pending_messages@),
        delivered: c.delivered@,
    }
}

/// The client entries as plain values.
pub open spec fn clients_view(s: Seq<ClientEntry>) -> Seq<ClientView> {
    s.map_values(|c: ClientEntry| client_view(c))
}

/// Whether `c` is the registration of `addr` named by `token`.
pub open spec fn is_target(c: ClientView, addr: PeerAddr, token: ClientToken) -> bool {
    c.addr == addr && c.token == token
}

/// The first registration of `addr` named by `token` at or after `k`.
pub open spec fn spec_find_target_from(
    s: Seq<ClientView>,
    addr: PeerAddr,
    token: ClientToken,
    k: int,
) -> Option<int>
    decreases s.len() - k,
{
    if k < 0 || k >= s.len() {
        None
    } else if is_target(s[k], addr, token) {
        Some(k)
    } else {
        spec_find_target_from(s, addr, token, k + 1)
    }
}

/// The first registration of `addr` named by `token`.
pub open spec fn spec_find_target(s: Seq<ClientView>, addr: PeerAddr, token: ClientToken) -> Option<
    int,
> {
    spec_find_target_from(s, addr, token, 0)
}

/// What `spec_find_target_from` gives: the first registration at or after
/// `k`, or none at all.
pub proof fn lemma_find_target_from(s: Seq<ClientView>, addr: PeerAddr, token: ClientToken, k: int)
    requires
        k >= 0,
    ensures
        match spec_find_target_from(s, addr, token, k) {
            Some(i) => k <= i < s.len() && is_target(s[i], addr, token) && forall|j: int|
                k <= j < i ==> !is_target(#[trigger] s[j], addr, token),
            None => forall|j: int| k <= j < s.len() ==> !is_target(#[trigger] s[j], addr, token),
        },
    decreases s.len() - k,
{
    if k < s.len() && !is_target(s[k], addr, token) {
        lemma_find_target_from(s, addr, token, k + 1);
    }
}

/// The registration of `addr` named by `token` is found at `i` when it is
/// there and at no position from `k` up to `i`.
pub(crate) proof fn lemma_find_target_at(
    s: Seq<ClientView>,
    addr: PeerAddr,
    token: ClientToken,
    i: int,
    k: int,
)
    requires
        0 <= k <= i < s.len(),
        is_target(s[i], addr, token),
        forall|j: int| k <= j < i ==> !is_target(#[trigger] s[j], addr, token),
    ensures
        spec_find_target_from(s, addr, token, k) == Some(i),
    decreases i - k,
{
    if k < i {
        lemma_find_target_at(s, addr, token, i, k + 1);
    }
}

/// Changing the registration found at `i`, but not its address or token,
/// leaves it found at `i`.
pub(crate) proof fn lemma_find_target_update(
    s: Seq<ClientView>,
    addr: PeerAddr,
    token: ClientToken,
    i: int,
    v: ClientView,
)
    requires
        spec_find_target(s, addr, token) == Some(i),
        v.addr == addr,
        v.token == token,
    ensures
        spec_find_target(s.update(i, v), addr, token) == Some(i),
{
    lemma_find_target_from(s, addr, token, 0);
    let t = s.update(i, v);
    assert forall|j: int| 0 <= j < i implies !is_target(#[trigger] t[j], addr, token) by {
        assert(t[j] == s[j]);
    }
    lemma_find_target_at(t, addr, token, i, 0);
}

/// Whether some client is the registration of `addr` named by `token`.
pub open spec fn holds_registration(s: Seq<ClientView>, addr: PeerAddr, token: ClientToken) -> bool {
    exists|i: int| 0 <= i < s.len() && is_target(s[i], addr, token)
}

/// Whether every registration among `after` was one among `before`.
pub open spec fn registrations_within(after: Seq<ClientView>, before: Seq<ClientView>) -> bool {
    forall|a: PeerAddr, t: ClientToken|
        #[trigger] holds_registration(after, a, t) ==> holds_registration(before, a, t)
}

/// Changing one client, but not its address or token, adds no registration.
pub proof fn lemma_update_within(s: Seq<ClientView>, i: int, v: ClientView)
    requires
        0 <= i < s.len(),
        v.addr == s[i].addr,
        v.token == s[i].token,
    ensures
        registrations_within(s.update(i, v), s),
{
    assert forall|a: PeerAddr, t: ClientToken| #[trigger] holds_registration(s.update(i, v), a, t) implies holds_registration(
        s,
        a,
        t,
    ) by {
        let j = choose|j: int| 0 <= j < s.len() && is_target(s.update(i, v)[j], a, t);
        assert(is_target(s[j], a, t));
    }
}

/// Whether `after` is what delivering `message` to every client of `s`
/// left, for some outcome of each offer to a queue.
pub open spec fn delivered_to_all(s: Seq<ClientView>, message: Seq<u8>, after: Seq<ClientView>) -> bool {
    exists|sent: Seq<bool>|
        sent.len() == s.len() && (#[trigger] spec_broadcast(s, message, None, sent)).0 == after
}

/// Whether `s` is what a round that dropped no client left, in which every
/// client of some earlier registry was offered the list of that registry's
/// user names.
pub open spec fn presence_delivered(s: Seq<ClientView>) -> bool {
    exists|mid: Seq<ClientView>, sent: Seq<bool>|
        #![trigger spec_broadcast(mid, spec_encode_presence(spec_usernames(mid))->Ok_0, None, sent)]
        sent.len() == mid.len() && spec_encode_presence(spec_usernames(mid)) is Ok && spec_broadcast(
            mid,
            spec_encode_presence(spec_usernames(mid))->Ok_0,
            None,
            sent,
        ) == (s, false)
}

/// The clients without the registrations of `addr` named by `token`.
pub open spec fn spec_remove_target(s: Seq<ClientView>, addr: PeerAddr, token: ClientToken) -> Seq<
    ClientView,
>
    decreases s.len(),
{
    if s.len() == 0 {
        s
    } else {
        let rest = spec_remove_target(s.drop_last(), addr, token);
        if is_target(s.last(), addr, token) {
            rest
        } else {
            rest.push(s.last())
        }
    }
}

/// How many clients connected from `ip`.
pub open spec fn count_ip(s: Seq<ClientView>, ip: PeerIp) -> nat
    decreases s.len(),
{
    if s.len() == 0 {
        0
    } else {
        count_ip(s.drop_last(), ip) + if s.last().addr.ip == ip {
            1nat
        } else {
            0nat
        }
    }
}

/// The user names of the clients that have one, in order.
pub open spec fn spec_usernames(s: Seq<ClientView>) -> Seq<Seq<char>>
    decreases s.len(),
{
    if s.len() == 0 {
        seq![]
    } else {
        let rest = spec_usernames(s.drop_last());
        match s.last().username {
            Some(name) => rest.push(name),
            None => rest,
        }
    }
}

/// A client with `message` handed to its outbound queue.
pub open spec fn with_delivered(c: ClientView, message: Seq<u8>) -> ClientView {
    ClientView { delivered: c.delivered.push(message), ..c }
}

/// A client with `message` added to its pending queue.
pub open spec fn with_pending(c: ClientView, message: Seq<u8>) -> ClientView {
    ClientView { pending: c.pending.push(message), ..c }
}

/// Whether delivery of `message` turned the client `c` into `d`: left as
/// it was, with the message handed to its queue, or with the message added
/// to a pending queue that had room.
pub open spec fn delivery_of(d: ClientView, c: ClientView, message: Seq<u8>) -> bool {
    ||| d == c
    ||| d == with_delivered(c, message)
    ||| d == with_pending(c, message) && c.pending.len() < PENDING_MESSAGES_LIMIT
}

/// Delivery of `message` to the clients, given for each client that was
/// tried whether its queue took the message: clients at `exclude` are
/// skipped; a ready client whose queue took the message keeps its place with
/// the message handed over, and is dropped when its queue refused it; a client still replaying history gets the
/// message added to its pending queue, and is dropped when that queue is
/// full.  The flag tells whether any client was dropped.
pub open spec fn spec_broadcast(
    s: Seq<ClientView>,
    message: Seq<u8>,
    exclude: Option<PeerAddr>,
    sent: Seq<bool>,
) -> (Seq<ClientView>, bool)
    recommends
        sent.len() == s.len(),
    decreases s.len(),
{
    if s.len() == 0 {
        (s, false)
    } else {
        let (rest, dropped) = spec_broadcast(s.drop_last(), message, exclude, sent.drop_last());
        let c = s.last();
        if exclude == Some(c.addr) {
            (rest.push(c), dropped)
        } else if c.ready {
            if sent.last() {
                (rest.push(with_delivered(c, message)), dropped)
            } else {
                (rest, true)
            }
        } else if c.pending.len() >= PENDING_MESSAGES_LIMIT {
            (rest, true)
        } else {
            (rest.push(with_pending(c, message)), dropped)
        }
    }
}

/// The registry's bookkeeping holds: within the admission limits, tokens
/// below the next one to be issued and never shared, pending queues within
/// their limit.
pub open spec fn registry_wf(s: Seq<ClientView>, next_token: nat) -> bool {
    &&& s.len() <= MAX_CONNECTIONS
    &&& forall|i: int| 0 <= i < s.len() ==> (#[trigger] s[i]).token.spec_id() < next_token
    &&& forall|i: int, j: int|
        0 <= i < j < s.len() ==> (#[trigger] s[i]).token != (#[trigger] s[j]).token
    &&& forall|ip: PeerIp| #[trigger] count_ip(s, ip) <= MAX_CONNECTIONS_PER_IP
    &&& forall|i: int| 0 <= i < s.len() ==> (#[trigger] s[i]).pending.len() <= PENDING_MESSAGES_LIMIT
}

/// The server's shared state: the registered clients and the history.
pub struct ServerState {
    clients: Vec<ClientEntry>,
    history: MessageHistory,
    next_token: u64,
}

/// The registry's bookkeeping survives dropping the last client.
proof fn lemma_wf_drop_last(s: Seq<ClientView>, n: nat)
    requires
        s.len() > 0,
        registry_wf(s, n),
    ensures
        registry_wf(s.drop_last(), n),
        forall|i: int| 0 <= i < s.len() - 1 ==> (#[trigger] s.drop_last()[i]).token != s.last().token,
{
    let d = s.drop_last();
    assert forall|ip: PeerIp| #[trigger] count_ip(d, ip) <= MAX_CONNECTIONS_PER_IP by {
        assert(count_ip(s, ip) <= MAX_CONNECTIONS_PER_IP);
    }
    assert forall|i: int| 0 <= i < s.len() - 1 implies (#[trigger] d[i]).token != s.last().token by {
        assert(d[i] == s[i]);
        assert(s[i].token != s[s.len() - 1].token);
    }
    assert forall|i: int, j: int| 0 <= i < j < d.len() implies (#[trigger] d[i]).token != (
    #[trigger] d[j]).token by {
        assert(d[i] == s[i] && d[j] == s[j]);
    }
}

/// Law: removing the registration of `addr` named by `token` keeps every
/// other client, a newer registration of the same address among them.
pub proof fn lemma_removal_keeps_others(
    s: Seq<ClientView>,
    addr: PeerAddr,
    token: ClientToken,
    c: ClientView,
)
    requires
        s.contains(c),
        !is_target(c, addr, token),
    ensures
        spec_remove_target(s, addr, token).contains(c),
    decreases s.len(),
{
    let d = s.drop_last();
    let rest = spec_remove_target(d, addr, token);
    if s.last() == c {
        assert(spec_remove_target(s, addr, token).last() == c);
    } else {
        let k = choose|k: int| 0 <= k < s.len() && s[k] == c;
        assert(d[k] == c);
        lemma_removal_keeps_others(d, addr, token, c);
        let j = choose|j: int| 0 <= j < rest.len() && rest[j] == c;
        if !is_target(s.last(), addr, token) {
            assert(spec_remove_target(s, addr, token)[j] == c);
        }
    }
}

/// Removing a registration that is not there changes nothing.
proof fn lemma_remove_absent(s: Seq<ClientView>, addr: PeerAddr, token: ClientToken)
    ensures
        !holds_registration(s, addr, token) ==> spec_remove_target(s, addr, token) == s,
    decreases s.len(),
{
    if s.len() > 0 && !holds_registration(s, addr, token) {
        let d = s.drop_last();
        assert forall|i: int| 0 <= i < d.len() implies !is_target(d[i], addr, token) by {
            assert(d[i] == s[i]);
        }
        lemma_remove_absent(d, addr, token);
        assert(!is_target(s[s.len() - 1], addr, token));
        assert(d.push(s.last()) =~= s);
    }
}

/// What removing the registrations of `addr` named by `token` keeps: a
/// selection of the clients, with no more per address, and the
/// bookkeeping intact; something is removed exactly when such a
/// registration exists.
proof fn lemma_remove_target(s: Seq<ClientView>, addr: PeerAddr, token: ClientToken, n: nat)
    ensures
        spec_remove_target(s, addr, token).len() <= s.len(),
        (spec_remove_target(s, addr, token).len() < s.len()) == (exists|i: int|
            0 <= i < s.len() && is_target(s[i], addr, token)),
        forall|ip: PeerIp| #[trigger] count_ip(spec_remove_target(s, addr, token), ip) <= count_ip(s, ip),
        forall|j: int|
            0 <= j < spec_remove_target(s, addr, token).len() ==> exists|i: int|
                0 <= i < s.len() && #[trigger] spec_remove_target(s, addr, token)[j] == s[i]
                    && !is_target(s[i], addr, token),
        forall|j: int|
            0 <= j < spec_remove_target(s, addr, token).len() ==> !is_target(
                #[trigger] spec_remove_target(s, addr, token)[j],
                addr,
                token,
            ),
        registry_wf(s, n) ==> registry_wf(spec_remove_target(s, addr, token), n),
    decreases s.len(),
{
    if s.len() > 0 {
        let d = s.drop_last();
        let last = s.last();
        let rest = spec_remove_target(d, addr, token);
        let r = spec_remove_target(s, addr, token);
        lemma_remove_target(d, addr, token, n);
        assert forall|ip: PeerIp| #[trigger] count_ip(r, ip) <= count_ip(s, ip) by {
            assert(count_ip(rest, ip) <= count_ip(d, ip));
            if !is_target(last, addr, token) {
                assert(r.drop_last() =~= rest);
            }
        }
        assert forall|j: int| 0 <= j < r.len() implies exists|i: int|
            0 <= i < s.len() && #[trigger] r[j] == s[i] && !is_target(s[i], addr, token) by {
            if j < rest.len() {
                let i = choose|i: int| 0 <= i < d.len() && rest[j] == d[i] && !is_target(d[i], addr, token);
                assert(r[j] == s[i]);
            } else {
                assert(r[j] == s[s.len() - 1]);
            }
        }
        if exists|i: int| 0 <= i < s.len() && is_target(s[i], addr, token) {
            let i = choose|i: int| 0 <= i < s.len() && is_target(s[i], addr, token);
            if i < s.len() - 1 {
                assert(d[i] == s[i]);
            }
        } else {
            assert forall|i: int| 0 <= i < d.len() implies !is_target(d[i], addr, token) by {
                assert(d[i] == s[i]);
            }
        }
        if registry_wf(s, n) {
            lemma_wf_drop_last(s, n);
            if !is_target(last, addr, token) {
                assert forall|i: int, j: int| 0 <= i < j < r.len() implies (#[trigger] r[i]).token
                    != (#[trigger] r[j]).token by {
                    if j == r.len() - 1 {
                        let k = choose|k: int| 0 <= k < d.len() && rest[i] == d[k] && !is_target(d[k], addr, token);
                        assert(d[k].token != last.token);
                    } else {
                        assert(r[i] == rest[i] && r[j] == rest[j]);
                    }
                }
                assert forall|i: int| 0 <= i < r.len() implies (#[trigger] r[i]).token.spec_id() < n by {
                    if i < rest.len() {
                        assert(r[i] == rest[i]);
                    }
                }
                assert forall|i: int| 0 <= i < r.len() implies (#[trigger] r[i]).pending.len()
                    <= PENDING_MESSAGES_LIMIT by {
                    if i < rest.len() {
                        assert(r[i] == rest[i]);
                    }
                }
            }
        }
    }
}

/// Whether `d` is the client `c` later on: the same registration, user name
/// and readiness, with more messages handed over after those `c` was
/// handed.
pub open spec fn grown_from(d: ClientView, c: ClientView) -> bool {
    &&& d.addr == c.addr
    &&& d.token == c.token
    &&& d.username == c.username
    &&& d.ready == c.ready
    &&& c.delivered.is_prefix_of(d.delivered)
}

/// Whether `d` is some client of `before` later on.
pub open spec fn grown_from_some(d: ClientView, before: Seq<ClientView>) -> bool {
    exists|i: int| 0 <= i < before.len() && #[trigger] grown_from(d, before[i])
}

/// Whether every client of `after` is a client of `before` later on.
pub open spec fn clients_grown_from(after: Seq<ClientView>, before: Seq<ClientView>) -> bool {
    forall|j: int| 0 <= j < after.len() ==> #[trigger] grown_from_some(after[j], before)
}

/// Every client is itself later on.
pub proof fn lemma_grown_refl(s: Seq<ClientView>)
    ensures
        clients_grown_from(s, s),
{
    assert forall|j: int| 0 <= j < s.len() implies #[trigger] grown_from_some(s[j], s) by {
        assert(s[j].delivered =~= s[j].delivered.subrange(0, s[j].delivered.len() as int));
        assert(grown_from(s[j], s[j]));
    }
}

/// Growing twice is growing once.
pub proof fn lemma_grown_trans(a: Seq<ClientView>, b: Seq<ClientView>, c: Seq<ClientView>)
    requires
        clients_grown_from(a, b),
        clients_grown_from(b, c),
    ensures
        clients_grown_from(a, c),
{
    assert forall|j: int| 0 <= j < a.len() implies #[trigger] grown_from_some(a[j], c) by {
        assert(grown_from_some(a[j], b));
        let k = choose|k: int| 0 <= k < b.len() && #[trigger] grown_from(a[j], b[k]);
        assert(grown_from_some(b[k], c));
        let i = choose|i: int| 0 <= i < c.len() && #[trigger] grown_from(b[k], c[i]);
        let x = c[i].delivered;
        let y = b[k].delivered;
        let z = a[j].delivered;
        assert(x =~= z.subrange(0, x.len() as int)) by {
            assert forall|n: int| 0 <= n < x.len() implies x[n] == z.subrange(0, x.len() as int)[n] by {
                assert(x[n] == y.subrange(0, x.len() as int)[n]);
                assert(y[n] == z.subrange(0, y.len() as int)[n]);
            }
        }
        assert(grown_from(a[j], c[i]));
    }
}

/// Delivery only hands more messages to the clients it keeps.
proof fn lemma_broadcast_grows(
    s: Seq<ClientView>,
    message: Seq<u8>,
    exclude: Option<PeerAddr>,
    sent: Seq<bool>,
    n: nat,
)
    requires
        sent.len() == s.len(),
    ensures
        clients_grown_from(spec_broadcast(s, message, exclude, sent).0, s),
{
    let r = spec_broadcast(s, message, exclude, sent).0;
    lemma_broadcast(s, message, exclude, sent, n);
    assert forall|j: int| 0 <= j < r.len() implies #[trigger] grown_from_some(r[j], s) by {
        let i = choose|i: int| 0 <= i < s.len() && delivery_of(#[trigger] r[j], s[i], message);
        let c = s[i];
        if r[j] == with_delivered(c, message) {
            assert(c.delivered =~= c.delivered.push(message).subrange(0, c.delivered.len() as int));
        } else {
            assert(c.delivered =~= r[j].delivered.subrange(0, c.delivered.len() as int));
        }
        assert(grown_from(r[j], s[i]));
    }
}

/// What delivery keeps: a selection of the clients, some with the message
/// added to a pending queue that had room; no more clients per address; the
/// bookkeeping intact; and the flag tells whether any client was dropped.
proof fn lemma_broadcast(
    s: Seq<ClientView>,
    message: Seq<u8>,
    exclude: Option<PeerAddr>,
    sent: Seq<bool>,
    n: nat,
)
    requires
        sent.len() == s.len(),
    ensures
        spec_broadcast(s, message, exclude, sent).0.len() <= s.len(),
        spec_broadcast(s, message, exclude, sent).1 == (spec_broadcast(s, message, exclude, sent).0.len()
            < s.len()),
        forall|ip: PeerIp| #[trigger] count_ip(spec_broadcast(s, message, exclude, sent).0, ip) <= count_ip(s, ip),
        forall|j: int|
            0 <= j < spec_broadcast(s, message, exclude, sent).0.len() ==> exists|i: int|
                0 <= i < s.len() && delivery_of(#[trigger] spec_broadcast(s, message, exclude, sent).0[j], s[i], message),
        registry_wf(s, n) ==> registry_wf(spec_broadcast(s, message, exclude, sent).0, n),
    decreases s.len(),
{
    if s.len() > 0 {
        let d = s.drop_last();
        let c = s.last();
        let rest = spec_broadcast(d, message, exclude, sent.drop_last()).0;
        let r = spec_broadcast(s, message, exclude, sent).0;
        lemma_broadcast(d, message, exclude, sent.drop_last(), n);
        let kept_as_is = exclude == Some(c.addr) || (c.ready && sent.last());
        let kept_pending = exclude != Some(c.addr) && !c.ready && c.pending.len() < PENDING_MESSAGES_LIMIT;
        assert forall|ip: PeerIp| #[trigger] count_ip(r, ip) <= count_ip(s, ip) by {
            assert(count_ip(rest, ip) <= count_ip(d, ip));
            if kept_as_is || kept_pending {
                assert(r.drop_last() =~= rest);
            }
        }
        assert forall|j: int| #![trigger r[j]] 0 <= j < r.len() implies exists|i: int|
            0 <= i < s.len() && #[trigger] delivery_of(r[j], s[i], message) by {
            if j < rest.len() {
                let rj = spec_broadcast(d, message, exclude, sent.drop_last()).0[j];
                let i = choose|i: int| 0 <= i < d.len() && delivery_of(rj, d[i], message);
                assert(r[j] == rj);
                assert(d[i] == s[i]);
                assert(delivery_of(r[j], s[i], message));
            } else {
                assert(s[s.len() - 1] == c);
                assert(delivery_of(r[j], s[s.len() - 1], message));
            }
        }
        if registry_wf(s, n) {
            lemma_wf_drop_last(s, n);
            if kept_as_is || kept_pending {
                let last = r.last();
                assert(last.token == c.token && last.addr == c.addr);
                assert forall|i: int, j: int| 0 <= i < j < r.len() implies (#[trigger] r[i]).token
                    != (#[trigger] r[j]).token by {
                    if j == r.len() - 1 {
                        let k = choose|k: int|
                            0 <= k < d.len() && delivery_of(rest[i], d[k], message);
                        assert(d[k].token != c.token);
                    } else {
                        assert(r[i] == rest[i] && r[j] == rest[j]);
                    }
                }
                assert forall|i: int| 0 <= i < r.len() implies (#[trigger] r[i]).token.spec_id() < n by {
                    if i < rest.len() {
                        assert(r[i] == rest[i]);
                    }
                }
                assert forall|i: int| 0 <= i < r.len() implies (#[trigger] r[i]).pending.len()
                    <= PENDING_MESSAGES_LIMIT by {
                    if i < rest.len() {
                        assert(r[i] == rest[i]);
                    }
                }
            }
        }
    }
}

/// Offers `message` to `writer`'s queue, and tells what happened; a message
/// the queue took joins the log of what was handed over, `delivered`.
fn send_logged(
    writer: &SyncSender<Vec<u8>>,
    message: Vec<u8>,
    delivered: Ghost<Seq<Seq<u8>>>,
) -> (r: (SendOutcome, Ghost<Seq<Seq<u8>>>))
    ensures
        r.0 is Sent ==> r.1@ == delivered@.push(message@),
        !(r.0 is Sent) ==> r.1@ == delivered@,
        r.0 matches SendOutcome::Full(m) ==> m@ == message@,
        r.0 matches SendOutcome::Disconnected(m) ==> m@ == message@,
{
    let ghost m = message@;
    let outcome = try_send_bytes(writer, message);
    let log = match outcome {
        SendOutcome::Sent => Ghost(delivered@.push(m)),
        _ => delivered,
    };
    (outcome, log)
}

/// Sends `pending` through `writer` in order, stopping at the first message
/// the queue refuses.  Gives back what was not sent (nothing, when all
/// went), the error that says why when a message was refused, and the log of
/// what was handed over, `delivered` followed by the messages sent.
fn send_pending(
    writer: &SyncSender<Vec<u8>>,
    pending: Vec<Vec<u8>>,
    delivered: Ghost<Seq<Seq<u8>>>,
) -> (r: (Vec<Vec<u8>>, Option<ServerError>, Ghost<Seq<Seq<u8>>>))
    ensures
        r.1 is None ==> r.0@.len() == 0 && r.2@ == delivered@ + byte_views(pending@),
        r.1 is Some ==> (r.1 matches Some(ServerError::OutboundQueueFull) || r.1 matches Some(
            ServerError::OutboundWriterGone,
        )) && exists|k: int|
            0 <= k < pending@.len() && byte_views(r.0@) == byte_views(pending@).subrange(
                k,
                pending@.len() as int,
            ) && r.2@ == delivered@ + byte_views(pending@).subrange(0, k),
{
    let ghost pend = byte_views(pending@);
    let mut remaining = pending;
    let mut log = delivered;
    let ghost mut k: int = 0;
    while remaining.len() > 0
        invariant
            0 <= k <= pend.len(),
            pend == byte_views(pending@),
            byte_views(remaining@) == pend.subrange(k, pend.len() as int),
            log@ == delivered@ + pend.subrange(0, k),
        decreases remaining@.len(),
    {
        let ghost rest = remaining@;
        let message = remaining.remove(0);
        assert(message == rest[0]);
        assert(byte_views(rest)[0] == rest[0]@);
        assert(byte_views(rest)[0] == pend.subrange(k, pend.len() as int)[0]);
        assert(rest.len() > 0);
        assert(byte_views(rest).len() == rest.len());
        assert(k < pend.len());
        assert(pend.subrange(k, pend.len() as int)[0] == pend[k]);
        assert(message@ == pend[k]);
        let (outcome, next) = send_logged(writer, message, log);
        match outcome {
            SendOutcome::Sent => {
                log = next;
                proof {
                    assert(byte_views(remaining@) =~= byte_views(rest).drop_first());
                    assert(pend.subrange(k + 1, pend.len() as int) =~= pend.subrange(
                        k,
                        pend.len() as int,
                    ).drop_first());
                    assert(pend.subrange(0, k + 1) =~= pend.subrange(0, k).push(pend[k]));
                    assert(log@ =~= delivered@ + pend.subrange(0, k + 1));
                    k = k + 1;
                }
            },
            SendOutcome::Full(m) => {
                remaining.insert(0, m);
                assert(byte_views(remaining@) =~= byte_views(rest));
                return (remaining, Some(ServerError::OutboundQueueFull), log);
            },
            SendOutcome::Disconnected(m) => {
                remaining.insert(0, m);
                assert(byte_views(remaining@) =~= byte_views(rest));
                return (remaining, Some(ServerError::OutboundWriterGone), log);
            },
        }
    }
    assert(pend.subrange(0, pend.len() as int) =~= pend);
    (remaining, None, log)
}

impl ServerState {
    /// The registered clients, in the order they registered.
    pub closed spec fn clients(&self) -> Seq<ClientView> {
        clients_view(self.clients@)
    }

    /// The recorded messages, oldest first.
    pub closed spec fn history(&self) -> Seq<Seq<char>> {
        self.history@
    }

    /// The number of the next token to be issued.
    pub closed spec fn next_token(&self) -> nat {
        self.next_token as nat
    }

    /// The bookkeeping of the registry and of the history holds.
    pub closed spec fn wf(&self) -> bool {
        &&& registry_wf(self.clients(), self.next_token())
        &&& self.history.wf()
        &&& self.history.spec_limit() == MESSAGE_HISTORY_LIMIT
    }

    /// No two clients of a well-formed registry share a token.
    pub proof fn lemma_tokens_distinct(&self)
        requires
            self.wf(),
        ensures
            forall|i: int, j: int|
                0 <= i < self.clients().len() && 0 <= j < self.clients().len() && i != j
                    ==> (#[trigger] self.clients()[i]).token != (#[trigger] self.clients()[j]).token,
    {
        assert forall|i: int, j: int|
            0 <= i < self.clients().len() && 0 <= j < self.clients().len() && i != j
                implies (#[trigger] self.clients()[i]).token != (#[trigger] self.clients()[j]).token by {
            if i > j {
                assert(self.clients()[j].token != self.clients()[i].token);
            }
        }
    }

    /// An empty registry with an empty history.
    pub fn new() -> (r: ServerState)
        ensures
            r.wf(),
            r.clients() == Seq::<ClientView>::empty(),
            r.history() == Seq::<Seq<char>>::empty(),
    {
        let r = ServerState {
            clients: Vec::new(),
            history: MessageHistory::new(MESSAGE_HISTORY_LIMIT),
            next_token: 0,
        };
        assert(r.clients() =~= Seq::<ClientView>::empty());
        assert forall|ip: PeerIp| #[trigger] count_ip(r.clients(), ip) <= MAX_CONNECTIONS_PER_IP by {
        }
        r
    }

    /// How many clients are registered.
    pub fn client_count(&self) -> (r: usize)
        ensures
            r == self.clients().len(),
    {
        self.clients.len()
    }

    /// How many registered clients connected from `ip`.
    pub fn count_clients_from(&self, ip: PeerIp) -> (r: usize)
        ensures
            r == count_ip(self.clients(), ip),
    {
        let mut count: usize = 0;
        let mut i: usize = 0;
        while i < self.clients.len()
            invariant
                i <= self.clients@.len(),
                count <= i,
                count == count_ip(self.clients().subrange(0, i as int), ip),
            decreases self.clients@.len() - i,
        {
            assert(self.clients().subrange(0, i + 1).drop_last() =~= self.clients().subrange(
                0,
                i as int,
            ));
            assert(self.clients()[i as int] == client_view(self.clients@[i as int]));
            if self.clients[i].addr.ip == ip {
                count = count + 1;
            }
            i = i + 1;
        }
        assert(self.clients().subrange(0, i as int) =~= self.clients());
        count
    }

    /// The position of the registration of `addr` named by `token`.
    fn find_target(&self, addr: PeerAddr, token: &ClientToken) -> (r: Option<usize>)
        ensures
            match spec_find_target(self.clients(), addr, *token) {
                Some(i) => r == Some(i as usize),
                None => r is None,
            },
    {
        let mut i: usize = 0;
        while i < self.clients.len()
            invariant
                i <= self.clients@.len(),
                spec_find_target(self.clients(), addr, *token) == spec_find_target_from(
                    self.clients(),
                    addr,
                    *token,
                    i as int,
                ),
            decreases self.clients@.len() - i,
        {
            assert(self.clients()[i as int] == client_view(self.clients@[i as int]));
            if self.clients[i].addr == addr && self.clients[i].token.matches(token) {
                return Some(i);
            }
            i = i + 1;
        }
        None
    }

    /// Registers a client connected from `addr` whose outbound queue is
    /// `writer`, unless the server is full or `addr`'s address already holds
    /// its share of clients.
    pub fn register_client_with_status(
        &mut self,
        addr: PeerAddr,
        writer: SyncSender<Vec<u8>>,
        ready: bool,
    ) -> (r: Result<ClientToken, ServerError>)
        requires
            old(self).wf(),
        ensures
            final(self).wf(),
            final(self).history() == old(self).history(),
            (old(self).clients().len() >= MAX_CONNECTIONS || count_ip(old(self).clients(), addr.ip)
                >= MAX_CONNECTIONS_PER_IP || old(self).next_token() == u64::MAX) ==> (r matches Err(
                ServerError::ConnectionLimitReached,
            ) && final(self).clients() == old(self).clients()),
            !(old(self).clients().len() >= MAX_CONNECTIONS || count_ip(old(self).clients(), addr.ip)
                >= MAX_CONNECTIONS_PER_IP || old(self).next_token() == u64::MAX) ==> (r matches Ok(
                token,
            ) && final(self).clients() == old(self).clients().push(
                ClientView {
                    addr,
                    token,
                    writer,
                    username: None,
                    ready,
                    pending: Seq::<Seq<u8>>::empty(),
                    delivered: Seq::<Seq<u8>>::empty(),
                },
            ) && forall|i: int|
                0 <= i < old(self).clients().len() ==> (#[trigger] old(self).clients()[i]).token
                    != token),
    {
        if self.clients.len() >= MAX_CONNECTIONS || self.count_clients_from(addr.ip)
            >= MAX_CONNECTIONS_PER_IP || self.next_token == u64::MAX {
            return Err(ServerError::ConnectionLimitReached);
        }
        let token = ClientToken::new(self.next_token);
        let ghost before = self.clients();
        self.next_token = self.next_token + 1;
        let entry = ClientEntry {
            addr,
            token,
            writer,
            username: None,
            ready,
            pending_messages: Vec::new(),
            delivered: Ghost(Seq::empty()),
        };
        self.clients.push(entry);
        proof {
            let v = client_view(entry);
            assert(v.pending =~= Seq::<Seq<u8>>::empty());
            assert(self.clients() =~= before.push(v));
            assert forall|ip: PeerIp| #[trigger] count_ip(self.clients(), ip)
                <= MAX_CONNECTIONS_PER_IP by {
                assert(self.clients().drop_last() =~= before);
                assert(count_ip(before, ip) <= MAX_CONNECTIONS_PER_IP);
                if ip == addr.ip {
                    assert(count_ip(before, addr.ip) < MAX_CONNECTIONS_PER_IP);
                }
            }
            assert forall|i: int| 0 <= i < before.len() implies (#[trigger] before[i]).token != token by {
                assert(before[i].token.spec_id() < token.spec_id());
            }
        }
        Ok(token)
    }

    /// Registers a client that is ready for live messages.
    pub fn register_client(&mut self, addr: PeerAddr, writer: SyncSender<Vec<u8>>) -> (r: Result<
        ClientToken,
        ServerError,
    >)
        requires
            old(self).wf(),
        ensures
            final(self).wf(),
            final(self).history() == old(self).history(),
            r is Err ==> final(self).clients() == old(self).clients(),
            r matches Ok(token) ==> final(self).clients() == old(self).clients().push(
                ClientView {
                    addr,
                    token,
                    writer,
                    username: None,
                    ready: true,
                    pending: Seq::<Seq<u8>>::empty(),
                    delivered: Seq::<Seq<u8>>::empty(),
                },
            ),
            r is Ok <==> !(old(self).clients().len() >= MAX_CONNECTIONS || count_ip(
                old(self).clients(),
                addr.ip,
            ) >= MAX_CONNECTIONS_PER_IP || old(self).next_token() == u64::MAX),
    {
        self.register_client_with_status(addr, writer, true)
    }

    /// Registers a client that first replays the history; live messages
    /// wait in its pending queue until it is marked ready.
    pub fn register_pending_client(&mut self, addr: PeerAddr, writer: SyncSender<Vec<u8>>) -> (r:
        Result<ClientToken, ServerError>)
        requires
            old(self).wf(),
        ensures
            final(self).wf(),
            final(self).history() == old(self).history(),
            r is Err ==> final(self).clients() == old(self).clients(),
            r matches Ok(token) ==> final(self).clients() == old(self).clients().push(
                ClientView {
                    addr,
                    token,
                    writer,
                    username: None,
                    ready: false,
                    pending: Seq::<Seq<u8>>::empty(),
                    delivered: Seq::<Seq<u8>>::empty(),
                },
            ),
            r is Ok <==> !(old(self).clients().len() >= MAX_CONNECTIONS || count_ip(
                old(self).clients(),
                addr.ip,
            ) >= MAX_CONNECTIONS_PER_IP || old(self).next_token() == u64::MAX),
    {
        self.register_client_with_status(addr, writer, false)
    }

    /// Removes the registration of `addr` named by `token`, if it is still
    /// there; a newer registration of the same address stays.
    pub fn remove_client_if_current(&mut self, addr: PeerAddr, token: &ClientToken) -> (removed:
        bool)
        requires
            old(self).wf(),
        ensures
            final(self).wf(),
            final(self).clients() == spec_remove_target(old(self).clients(), addr, *token),
            removed == holds_registration(old(self).clients(), addr, *token),
            !holds_registration(final(self).clients(), addr, *token),
            !removed ==> final(self).clients() == old(self).clients(),
            final(self).history() == old(self).history(),
    {
        let ghost orig = self.clients();
        let mut old_clients: Vec<ClientEntry> = Vec::new();
        std::mem::swap(&mut old_clients, &mut self.clients);
        let ghost orig_entries = old_clients@;
        let n = old_clients.len();
        let mut removed = false;
        let mut i: usize = 0;
        while i < n
            invariant
                n == orig.len(),
                orig == clients_view(orig_entries),
                i <= n,
                old_clients@ == orig_entries.subrange(i as int, n as int),
                self.clients() == spec_remove_target(orig.subrange(0, i as int), addr, *token),
                removed == exists|k: int| 0 <= k < i && is_target(orig[k], addr, *token),
                self.history == old(self).history,
                self.next_token == old(self).next_token,
            decreases n - i,
        {
            let entry = old_clients.remove(0);
            let ghost prefix = orig.subrange(0, i + 1);
            assert(prefix.drop_last() =~= orig.subrange(0, i as int));
            assert(entry == orig_entries[i as int]);
            assert(prefix.last() == client_view(entry));
            assert(old_clients@ =~= orig_entries.subrange(i + 1, n as int));
            if entry.addr == addr && entry.token.matches(token) {
                removed = true;
            } else {
                let ghost before = self.clients();
                self.clients.push(entry);
                assert(self.clients() =~= before.push(client_view(entry)));
            }
            i = i + 1;
        }
        proof {
            assert(orig.subrange(0, n as int) =~= orig);
            lemma_remove_target(orig, addr, *token, old(self).next_token());
            lemma_remove_absent(orig, addr, *token);
        }
        removed
    }

    /// Gives `addr`'s registration named by `token` a user name.
    pub fn set_client_username(&mut self, addr: PeerAddr, token: &ClientToken, username: &str) -> (r:
        Result<(), ServerError>)
        requires
            old(self).wf(),
        ensures
            final(self).wf(),
            final(self).history() == old(self).history(),
            match spec_find_target(old(self).clients(), addr, *token) {
                None => r matches Err(ServerError::UnknownClient) && final(self).clients() == old(
                    self,
                ).clients(),
                Some(i) => r is Ok && final(self).clients() == old(self).clients().update(
                    i,
                    ClientView { username: Some(username@), ..old(self).clients()[i] },
                ),
            },
    {
        let i = match self.find_target(addr, token) {
            Some(i) => i,
            None => return Err(ServerError::UnknownClient),
        };
        proof {
            lemma_find_target_from(self.clients(), addr, *token, 0);
        }
        let ghost before = self.clients();
        let entry = self.clients.remove(i);
        let ClientEntry { addr: a, token: t, writer, username: _, ready, pending_messages, delivered } =
            entry;
        let updated = ClientEntry {
            addr: a,
            token: t,
            writer,
            username: Some(username.to_owned()),
            ready,
            pending_messages,
            delivered,
        };
        self.clients.insert(i, updated);
        proof {
            assert(self.clients() =~= before.update(
                i as int,
                ClientView { username: Some(username@), ..before[i as int] },
            ));
            let after = self.clients();
            assert forall|ip: PeerIp| #[trigger] count_ip(after, ip) <= MAX_CONNECTIONS_PER_IP by {
                lemma_count_ip_update(before, i as int, after[i as int], ip);
            }
            assert forall|x: int, y: int| 0 <= x < y < after.len() implies (#[trigger] after[x]).token
                != (#[trigger] after[y]).token by {
                assert(before[x].token != before[y].token);
            }
        }
        Ok(())
    }

    /// The outbound queue of `addr`'s registration named by `token`, with
    /// the history to replay to it.
    pub fn history_snapshot(&self, addr: PeerAddr, token: &ClientToken) -> (r: Result<
        (SyncSender<Vec<u8>>, Vec<String>),
        ServerError,
    >)
        ensures
            match spec_find_target(self.clients(), addr, *token) {
                None => r matches Err(ServerError::UnknownClient),
                Some(i) => r matches Ok((w, h)) && string_views(h@) == self.history(),
            },
    {
        let i = match self.find_target(addr, token) {
            Some(i) => i,
            None => return Err(ServerError::UnknownClient),
        };
        proof {
            lemma_find_target_from(self.clients(), addr, *token, 0);
        }
        let writer = clone_writer(&self.clients[i].writer);
        let history = self.history.snapshot();
        Ok((writer, history))
    }

    /// Offers `message` to the outbound queue of `addr`'s registration named
    /// by `token`; a message the queue takes joins what that client was
    /// handed, and a refused one leaves every client as it was.
    pub fn deliver_to(&mut self, addr: PeerAddr, token: &ClientToken, message: Vec<u8>) -> (r:
        Result<(), ServerError>)
        requires
            old(self).wf(),
        ensures
            final(self).wf(),
            final(self).history() == old(self).history(),
            match spec_find_target(old(self).clients(), addr, *token) {
                None => r matches Err(ServerError::UnknownClient) && final(self).clients() == old(
                    self,
                ).clients(),
                Some(i) => {
                    ||| r is Ok && final(self).clients() == old(self).clients().update(
                        i,
                        with_delivered(old(self).clients()[i], message@),
                    )
                    ||| (r matches Err(ServerError::OutboundQueueFull) || r matches Err(
                        ServerError::OutboundWriterGone,
                    )) && final(self).clients() == old(self).clients()
                },
            },
    {
        let i = match self.find_target(addr, token) {
            Some(i) => i,
            None => return Err(ServerError::UnknownClient),
        };
        proof {
            lemma_find_target_from(self.clients(), addr, *token, 0);
        }
        let ghost before = self.clients();
        let ghost c = before[i as int];
        let ghost m = message@;
        assert(c == client_view(self.clients@[i as int]));
        let (outcome, log) = send_logged(&self.clients[i].writer, message, self.clients[i].delivered);
        match outcome {
            SendOutcome::Sent => {
                let mut entry = self.clients.remove(i);
                entry.delivered = log;
                self.clients.insert(i, entry);
                proof {
                    let v = client_view(entry);
                    assert(v == with_delivered(c, m));
                    assert(self.clients() =~= before.update(i as int, v));
                    lemma_wf_update(before, i as int, v, old(self).next_token());
                }
                Ok(())
            },
            SendOutcome::Full(_) => Err(ServerError::OutboundQueueFull),
            SendOutcome::Disconnected(_) => Err(ServerError::OutboundWriterGone),
        }
    }

    /// The user names of the clients that have one, in order.
    pub fn usernames(&self) -> (r: Vec<String>)
        ensures
            string_views(r@) == spec_usernames(self.clients()),
    {
        let mut r: Vec<String> = Vec::new();
        let mut i: usize = 0;
        while i < self.clients.len()
            invariant
                i <= self.clients@.len(),
                string_views(r@) == spec_usernames(self.clients().subrange(0, i as int)),
            decreases self.clients@.len() - i,
        {
            assert(self.clients().subrange(0, i + 1).drop_last() =~= self.clients().subrange(
                0,
                i as int,
            ));
            assert(self.clients()[i as int] == client_view(self.clients@[i as int]));
            match &self.clients[i].username {
                Some(name) => {
                    let ghost before = string_views(r@);
                    r.push(name.clone());
                    assert(string_views(r@) =~= before.push(name@));
                },
                None => {},
            }
            i = i + 1;
        }
        assert(self.clients().subrange(0, i as int) =~= self.clients());
        r
    }

    /// Sends the messages that waited while `addr`'s registration named by
    /// `token` replayed the history, in order, then marks it ready for live
    /// messages.  When its outbound queue refuses a message, that message
    /// and the ones after it stay pending and the client stays as it was.
    pub fn mark_client_ready(&mut self, addr: PeerAddr, token: &ClientToken) -> (r: Result<
        (),
        ServerError,
    >)
        requires
            old(self).wf(),
        ensures
            final(self).wf(),
            final(self).history() == old(self).history(),
            match spec_find_target(old(self).clients(), addr, *token) {
                None => r matches Err(ServerError::UnknownClient) && final(self).clients() == old(
                    self,
                ).clients(),
                Some(i) => {
                    let c = old(self).clients()[i];
                    ||| r is Ok && final(self).clients() == old(self).clients().update(
                        i,
                        ClientView {
                            ready: true,
                            pending: Seq::<Seq<u8>>::empty(),
                            delivered: c.delivered + c.pending,
                            ..c
                        },
                    )
                    ||| (r matches Err(ServerError::OutboundQueueFull) || r matches Err(
                        ServerError::OutboundWriterGone,
                    )) && exists|k: int|
                        0 <= k < c.pending.len() && final(self).clients() == old(
                            self,
                        ).clients().update(
                            i,
                            ClientView {
                                pending: c.pending.subrange(k, c.pending.len() as int),
                                delivered: c.delivered + c.pending.subrange(0, k),
                                ..c
                            },
                        )
                },
            },
    {
        let i = match self.find_target(addr, token) {
            Some(i) => i,
            None => return Err(ServerError::UnknownClient),
        };
        proof {
            lemma_find_target_from(self.clients(), addr, *token, 0);
        }
        let ghost before = self.clients();
        let ghost c = before[i as int];
        assert(c == client_view(self.clients@[i as int]));
        let entry = self.clients.remove(i);
        let ClientEntry { addr: a, token: t, writer, username, ready, pending_messages, delivered } =
            entry;
        let (remaining, failure, delivered) = send_pending(&writer, pending_messages, delivered);
        let now_ready = match failure {
            None => true,
            Some(_) => ready,
        };
        let entry = ClientEntry {
            addr: a,
            token: t,
            writer,
            username,
            ready: now_ready,
            pending_messages: remaining,
            delivered,
        };
        self.clients.insert(i, entry);
        proof {
            let v = client_view(entry);
            assert(self.clients() =~= before.update(i as int, v));
            lemma_wf_update(before, i as int, v, old(self).next_token());
        }
        match failure {
            None => {
                assert(byte_views(entry.pending_messages@) =~= Seq::<Seq<u8>>::empty());
                assert(client_view(entry) == ClientView {
                    ready: true,
                    pending: Seq::<Seq<u8>>::empty(),
                    delivered: c.delivered + c.pending,
                    ..c
                });
                Ok(())
            },
            Some(e) => Err(e),
        }
    }

    /// Delivers `message` to every client but those at `exclude`: a ready
    /// client's outbound queue gets it, and a client still replaying history
    /// gets it added to its pending queue.  A client whose outbound queue
    /// refuses it, or whose pending queue is full, is dropped.  Tells whether
    /// any client was dropped.
    pub fn broadcast(&mut self, message: &[u8], exclude: Option<PeerAddr>) -> (dropped: bool)
        requires
            old(self).wf(),
        ensures
            final(self).wf(),
            final(self).history() == old(self).history(),
            exists|sent: Seq<bool>|
                sent.len() == old(self).clients().len() && spec_broadcast(
                    old(self).clients(),
                    message@,
                    exclude,
                    sent,
                ) == (final(self).clients(), dropped),
            final(self).clients().len() <= old(self).clients().len(),
            dropped == (final(self).clients().len() < old(self).clients().len()),
            spec_usernames(final(self).clients()) == spec_usernames(old(self).clients()) || dropped,
            clients_grown_from(final(self).clients(), old(self).clients()),
            forall|a: PeerAddr, t: ClientToken|
                #[trigger] holds_registration(final(self).clients(), a, t) ==> holds_registration(
                    old(self).clients(),
                    a,
                    t,
                ),
    {
        let ghost orig = self.clients();
        let mut old_clients: Vec<ClientEntry> = Vec::new();
        std::mem::swap(&mut old_clients, &mut self.clients);
        let ghost orig_entries = old_clients@;
        let n = old_clients.len();
        let mut dropped = false;
        let ghost mut sent: Seq<bool> = Seq::empty();
        let mut i: usize = 0;
        while i < n
            invariant
                n == orig.len(),
                orig == clients_view(orig_entries),
                i <= n,
                sent.len() == i,
                old_clients@ == orig_entries.subrange(i as int, n as int),
                (self.clients(), dropped) == spec_broadcast(
                    orig.subrange(0, i as int),
                    message@,
                    exclude,
                    sent,
                ),
                self.history == old(self).history,
                self.next_token == old(self).next_token,
            decreases n - i,
        {
            let mut entry = old_clients.remove(0);
            let ghost prefix = orig.subrange(0, i + 1);
            assert(prefix.drop_last() =~= orig.subrange(0, i as int));
            assert(entry == orig_entries[i as int]);
            assert(prefix.last() == client_view(entry));
            assert(old_clients@ =~= orig_entries.subrange(i + 1, n as int));
            let ghost before = self.clients();
            let ghost sent0 = sent;
            let excluded = match exclude {
                Some(a) => entry.addr == a,
                None => false,
            };
            assert(excluded == (exclude == Some(client_view(entry).addr)));
            if excluded {
                self.clients.push(entry);
                proof {
                    sent = sent.push(true);
                    assert(self.clients() =~= before.push(client_view(entry)));
                }
            } else if entry.ready {
                let ghost c = client_view(entry);
                let (outcome, log) = send_logged(&entry.writer, slice_to_vec(message), entry.delivered);
                match outcome {
                    SendOutcome::Sent => {
                        entry.delivered = log;
                        assert(client_view(entry) == with_delivered(c, message@));
                        self.clients.push(entry);
                        proof {
                            sent = sent.push(true);
                            assert(self.clients() =~= before.push(with_delivered(c, message@)));
                        }
                    },
                    _ => {
                        dropped = true;
                        proof {
                            sent = sent.push(false);
                        }
                    },
                }
            } else if entry.pending_messages.len() >= PENDING_MESSAGES_LIMIT {
                dropped = true;
                proof {
                    sent = sent.push(true);
                }
            } else {
                let ghost c = client_view(entry);
                entry.pending_messages.push(slice_to_vec(message));
                assert(byte_views(entry.pending_messages@) =~= c.pending.push(message@));
                assert(client_view(entry) == with_pending(c, message@));
                self.clients.push(entry);
                proof {
                    sent = sent.push(true);
                    assert(self.clients() =~= before.push(with_pending(c, message@)));
                }
            }
            assert(sent.drop_last() =~= sent0);
            assert(spec_broadcast(prefix, message@, exclude, sent) == ({
                let (rest, d) = spec_broadcast(prefix.drop_last(), message@, exclude, sent.drop_last());
                let cv = prefix.last();
                if exclude == Some(cv.addr) {
                    (rest.push(cv), d)
                } else if cv.ready {
                    if sent.last() {
                        (rest.push(with_delivered(cv, message@)), d)
                    } else {
                        (rest, true)
                    }
                } else if cv.pending.len() >= PENDING_MESSAGES_LIMIT {
                    (rest, true)
                } else {
                    (rest.push(with_pending(cv, message@)), d)
                }
            }));
            i = i + 1;
        }
        proof {
            assert(orig.subrange(0, n as int) =~= orig);
            lemma_broadcast(orig, message@, exclude, sent, old(self).next_token());
            lemma_broadcast_keeps_names(orig, message@, exclude, sent);
            lemma_broadcast_selects(orig, message@, exclude, sent, old(self).next_token());
            lemma_broadcast_grows(orig, message@, exclude, sent, old(self).next_token());
        }
        dropped
    }

    /// Sends every client the list of user names, in a presence frame, until
    /// a round drops no client; a dropped client changes the list, so the
    /// next round sends the new one.  Fails when the list does not fit in a
    /// presence frame.
    pub fn broadcast_presence(&mut self) -> (r: Result<(), ServerError>)
        requires
            old(self).wf(),
        ensures
            final(self).wf(),
            final(self).history() == old(self).history(),
            final(self).clients().len() <= old(self).clients().len(),
            clients_grown_from(final(self).clients(), old(self).clients()),
            forall|a: PeerAddr, t: ClientToken|
                #[trigger] holds_registration(final(self).clients(), a, t) ==> holds_registration(
                    old(self).clients(),
                    a,
                    t,
                ),
            match r {
                Ok(()) => presence_delivered(final(self).clients()),
                Err(e) => e is OutboundQueueFull && spec_encode_presence(
                    spec_usernames(final(self).clients()),
                ) is Err,
            },
    {
        proof {
            lemma_grown_refl(self.clients());
        }
        loop
            invariant
                self.wf(),
                self.history() == old(self).history(),
                self.clients().len() <= old(self).clients().len(),
                clients_grown_from(self.clients(), old(self).clients()),
                forall|a: PeerAddr, t: ClientToken|
                    #[trigger] holds_registration(self.clients(), a, t) ==> holds_registration(
                        old(self).clients(),
                        a,
                        t,
                    ),
            decreases self.clients().len(),
        {
            let users = self.usernames();
            let frame = match encode_presence(users.as_slice()) {
                Ok(frame) => frame,
                Err(_) => return Err(ServerError::OutboundQueueFull),
            };
            let ghost mid = self.clients();
            assert(bytes_result(Ok(frame)) == spec_encode_presence(spec_usernames(mid)));
            let dropped = self.broadcast(frame.as_slice(), None);
            proof {
                lemma_grown_trans(self.clients(), mid, old(self).clients());
            }
            if !dropped {
                proof {
                    let sent = choose|sent: Seq<bool>|
                        sent.len() == mid.len() && spec_broadcast(mid, frame@, None, sent) == (
                            self.clients(),
                            dropped,
                        );
                    assert(spec_broadcast(
                        mid,
                        spec_encode_presence(spec_usernames(mid))->Ok_0,
                        None,
                        sent,
                    ) == (self.clients(), false));
                }
                return Ok(());
            }
        }
    }

    /// Records `message` in the history and delivers `frame` to every
    /// client but those at `exclude`; tells whether any client was dropped.
    pub fn record_and_broadcast(&mut self, message: &str, frame: &[u8], exclude: Option<PeerAddr>) -> (dropped: bool)
        requires
            old(self).wf(),
        ensures
            final(self).wf(),
            clients_grown_from(final(self).clients(), old(self).clients()),
            final(self).history() == keep_last(
                old(self).history().push(spec_trim_newlines(message@)),
                MESSAGE_HISTORY_LIMIT as nat,
            ),
            exists|sent: Seq<bool>|
                sent.len() == old(self).clients().len() && spec_broadcast(
                    old(self).clients(),
                    frame@,
                    exclude,
                    sent,
                ) == (final(self).clients(), dropped),
            dropped == (final(self).clients().len() < old(self).clients().len()),
            forall|a: PeerAddr, t: ClientToken|
                #[trigger] holds_registration(final(self).clients(), a, t) ==> holds_registration(
                    old(self).clients(),
                    a,
                    t,
                ),
    {
        self.record_message(message);
        self.broadcast(frame, exclude)
    }

    /// Records a chat message in the history.
    pub fn record_message(&mut self, message: &str)
        requires
            old(self).wf(),
        ensures
            final(self).wf(),
            final(self).clients() == old(self).clients(),
            final(self).history() == keep_last(
                old(self).history().push(spec_trim_newlines(message@)),
                MESSAGE_HISTORY_LIMIT as nat,
            ),
    {
        self.history.record(message);
    }
}

/// Delivery adds no registration: every client after it was a client before.
proof fn lemma_broadcast_selects(
    s: Seq<ClientView>,
    message: Seq<u8>,
    exclude: Option<PeerAddr>,
    sent: Seq<bool>,
    n: nat,
)
    requires
        sent.len() == s.len(),
    ensures
        forall|a: PeerAddr, t: ClientToken|
            #[trigger] holds_registration(spec_broadcast(s, message, exclude, sent).0, a, t)
                ==> holds_registration(s, a, t),
{
    let r = spec_broadcast(s, message, exclude, sent).0;
    lemma_broadcast(s, message, exclude, sent, n);
    assert forall|a: PeerAddr, t: ClientToken| #[trigger] holds_registration(r, a, t) implies holds_registration(
        s,
        a,
        t,
    ) by {
        let j = choose|j: int| 0 <= j < r.len() && is_target(r[j], a, t);
        let i = choose|i: int|
            0 <= i < s.len() && delivery_of(r[j], s[i], message);
        assert(is_target(s[i], a, t));
    }
}

/// A delivery that drops no client keeps every user name in its place.
proof fn lemma_broadcast_keeps_names(
    s: Seq<ClientView>,
    message: Seq<u8>,
    exclude: Option<PeerAddr>,
    sent: Seq<bool>,
)
    requires
        sent.len() == s.len(),
    ensures
        !spec_broadcast(s, message, exclude, sent).1 ==> spec_usernames(
            spec_broadcast(s, message, exclude, sent).0,
        ) == spec_usernames(s),
    decreases s.len(),
{
    if s.len() > 0 {
        lemma_broadcast_keeps_names(s.drop_last(), message, exclude, sent.drop_last());
        let r = spec_broadcast(s, message, exclude, sent).0;
        let rest = spec_broadcast(s.drop_last(), message, exclude, sent.drop_last()).0;
        if !spec_broadcast(s, message, exclude, sent).1 {
            assert(r.drop_last() =~= rest);
        }
    }
}

/// Changing one client's user name, readiness or pending queue, without
/// lengthening the queue, keeps the registry's bookkeeping.
proof fn lemma_wf_update(s: Seq<ClientView>, i: int, c: ClientView, n: nat)
    requires
        0 <= i < s.len(),
        registry_wf(s, n),
        c.addr == s[i].addr,
        c.token == s[i].token,
        c.pending.len() <= s[i].pending.len(),
    ensures
        registry_wf(s.update(i, c), n),
{
    let after = s.update(i, c);
    assert forall|ip: PeerIp| #[trigger] count_ip(after, ip) <= MAX_CONNECTIONS_PER_IP by {
        lemma_count_ip_update(s, i, c, ip);
    }
    assert forall|x: int, y: int| 0 <= x < y < after.len() implies (#[trigger] after[x]).token != (
    #[trigger] after[y]).token by {
        assert(s[x].token != s[y].token);
    }
    assert forall|x: int| 0 <= x < after.len() implies (#[trigger] after[x]).token.spec_id() < n by {
        assert(s[x].token.spec_id() < n);
    }
    assert forall|x: int| 0 <= x < after.len() implies (#[trigger] after[x]).pending.len()
        <= PENDING_MESSAGES_LIMIT by {
        assert(s[x].pending.len() <= PENDING_MESSAGES_LIMIT);
    }
}

/// Changing one client's user name keeps the count of every address.
proof fn lemma_count_ip_update(s: Seq<ClientView>, i: int, c: ClientView, ip: PeerIp)
    requires
        0 <= i < s.len(),
        c.addr == s[i].addr,
    ensures
        count_ip(s.update(i, c), ip) == count_ip(s, ip),
    decreases s.len(),
{
    if i < s.len() - 1 {
        assert(s.update(i, c).drop_last() =~= s.drop_last().update(i, c));
        lemma_count_ip_update(s.drop_last(), i, c, ip);
    } else {
        assert(s.update(i, c).drop_last() =~= s.drop_last());
    }
}

} // verus!
