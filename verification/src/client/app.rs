//! The chat client's session state: the message log with pending messages,
//! the connected users, the input line and `@` mention completion.

use crate::protocol::chat::{message_mentions_user, spec_mentions_from};
use crate::protocol::presence::string_views;
use crate::text::{
    ascii_lower, chars_of, is_whitespace, lemma_rfind, pop_char, push_char, rfind_char,
    spec_ascii_lower, spec_ascii_lower_seq, spec_is_whitespace, spec_rfind, spec_trim,
    string_from_chars, trim_bounds,
};
use vstd::arithmetic::div_mod::{lemma_mod_self_0, lemma_small_mod};
use vstd::prelude::*;
use vstd::slice::{slice_subrange, slice_to_vec};
use vstd::string::*;

verus! {

/// How many messages the log keeps.
pub const MESSAGE_LIMIT: usize = 300;

/// Whether a message the user sent has come back from the server yet.
#[derive(Clone, Copy, Debug, PartialEq, Eq, Structural)]
pub enum MessageState {
    Pending,
    Confirmed,
}

/// One line of the message log.
pub struct ChatMessage {
    pub text: String,
    pub state: MessageState,
}

/// The state of a client session.
pub struct ChatApp {
    pub username: String,
    pub input: String,
    pub messages: Vec<ChatMessage>,
    pub connected_users: Vec<String>,
    pub mention_selection: usize,
    pub connected: bool,
    pub exit_notice: Option<String>,
    pub should_quit: bool,
}

/// The log as text and state pairs.
pub open spec fn log_view(messages: Seq<ChatMessage>) -> Seq<(Seq<char>, MessageState)> {
    messages.map_values(|m: ChatMessage| (m.text@, m.state))
}

/// The last `limit` entries of `s`, or all of them when there are fewer.
pub open spec fn keep_last<T>(s: Seq<T>, limit: nat) -> Seq<T> {
    if s.len() > limit {
        s.subrange(s.len() - limit, s.len() as int)
    } else {
        s
    }
}

/// The word being typed after a trailing `@`: the text after the last `@`,
/// provided it holds no white space and the `@` starts the input or follows
/// white space.
pub open spec fn spec_active_mention_query(input: Seq<char>) -> Option<Seq<char>> {
    match spec_rfind(input, '@') {
        None => None,
        Some(at) => {
            let mention = input.subrange(at + 1, input.len() as int);
            if exists|i: int| 0 <= i < mention.len() && spec_is_whitespace(#[trigger] mention[i]) {
                None
            } else if at > 0 && !spec_is_whitespace(input[at - 1]) {
                None
            } else {
                Some(mention)
            }
        },
    }
}

/// Whether a user name completes `query`, ignoring ASCII case.
pub open spec fn completes(user: Seq<char>, query: Seq<char>) -> bool {
    let u = spec_ascii_lower_seq(user);
    let q = spec_ascii_lower_seq(query);
    q.len() <= u.len() && u.subrange(0, q.len() as int) == q
}

/// The users that complete `query`, in order.
pub open spec fn spec_completions(users: Seq<Seq<char>>, query: Seq<char>) -> Seq<Seq<char>>
    decreases users.len(),
{
    if users.len() == 0 {
        seq![]
    } else {
        let rest = spec_completions(users.drop_last(), query);
        if completes(users.last(), query) {
            rest.push(users.last())
        } else {
            rest
        }
    }
}

/// There are no more completions than users.
pub proof fn lemma_completions_len(users: Seq<Seq<char>>, query: Seq<char>)
    ensures
        spec_completions(users, query).len() <= users.len(),
    decreases users.len(),
{
    if users.len() > 0 {
        lemma_completions_len(users.drop_last(), query);
    }
}

/// The mention candidates for an input line and a user list.
pub open spec fn spec_candidates(input: Seq<char>, users: Seq<Seq<char>>) -> Seq<Seq<char>> {
    match spec_active_mention_query(input) {
        None => seq![],
        Some(query) => spec_completions(users, query),
    }
}

/// What receiving `m` from the server does to the log `before`, giving
/// `after`: the oldest pending entry with that text is confirmed, or, when
/// there is none, the text joins the log as confirmed.
pub open spec fn spec_received(
    before: Seq<(Seq<char>, MessageState)>,
    after: Seq<(Seq<char>, MessageState)>,
    m: Seq<char>,
) -> bool {
    &&& (exists|i: int| 0 <= i < before.len() && #[trigger] before[i] == (m, MessageState::Pending))
        ==> exists|i: int|
        0 <= i < before.len() && (forall|j: int|
            0 <= j < i ==> #[trigger] before[j] != (m, MessageState::Pending)) && before[i] == (
            m,
            MessageState::Pending,
        ) && after == before.update(i, (m, MessageState::Confirmed))
    &&& !(exists|i: int| 0 <= i < before.len() && #[trigger] before[i] == (m, MessageState::Pending))
        ==> after == keep_last(before.push((m, MessageState::Confirmed)), MESSAGE_LIMIT as nat)
}

/// The fields of a session that the message log leaves untouched.
pub open spec fn same_but_log(a: ChatApp, b: ChatApp) -> bool {
    &&& a.username == b.username
    &&& a.input == b.input
    &&& a.connected_users == b.connected_users
    &&& a.mention_selection == b.mention_selection
    &&& a.connected == b.connected
    &&& a.exit_notice == b.exit_notice
    &&& a.should_quit == b.should_quit
}

/// The selection above `sel` among `len` candidates, wrapping to the last.
pub open spec fn spec_previous_selection(sel: int, len: int) -> int {
    if sel == 0 {
        len - 1
    } else {
        sel - 1
    }
}

/// The selection below `sel` among `len` candidates, wrapping to the first.
pub open spec fn spec_next_selection(sel: int, len: int) -> int {
    (sel + 1) % len
}

/// Law: moving the mention selection down and then up, or up and then
/// down, comes back to the same candidate.
pub proof fn lemma_selection_moves_undo(sel: int, len: int)
    requires
        0 <= sel < len,
    ensures
        spec_previous_selection(spec_next_selection(sel, len), len) == sel,
        spec_next_selection(spec_previous_selection(sel, len), len) == sel,
{
    if sel + 1 < len {
        lemma_small_mod((sel + 1) as nat, len as nat);
    } else {
        lemma_mod_self_0(len);
    }
    if sel == 0 {
        lemma_mod_self_0(len);
    } else {
        lemma_small_mod(sel as nat, len as nat);
    }
}

/// Law: Down moves the selection to the candidate below, and from the
/// last one back to the first; Up moves it to the candidate above, and from
/// the first one to the last.
pub proof fn lemma_selection_directions(sel: int, len: int)
    requires
        0 <= sel < len,
    ensures
        sel + 1 < len ==> spec_next_selection(sel, len) == sel + 1,
        sel == len - 1 ==> spec_next_selection(sel, len) == 0,
        sel > 0 ==> spec_previous_selection(sel, len) == sel - 1,
        sel == 0 ==> spec_previous_selection(sel, len) == len - 1,
{
    if sel + 1 < len {
        lemma_small_mod((sel + 1) as nat, len as nat);
    } else {
        lemma_mod_self_0(len);
    }
}

/// Law: the mention query is the word after the last `@` of the input.
/// When the input ends in `@` and a word `q` with no white space and no
/// `@`, and that `@` starts the input or follows white space, the query is
/// `q`, whatever `@` words come before it.
pub proof fn lemma_mention_query_last_word(p: Seq<char>, q: Seq<char>)
    requires
        p.len() == 0 || spec_is_whitespace(p.last()),
        forall|i: int| 0 <= i < q.len() ==> !spec_is_whitespace(#[trigger] q[i]) && q[i] != '@',
    ensures
        spec_active_mention_query(p + seq!['@'] + q) == Some(q),
{
    let input = p + seq!['@'] + q;
    let at = p.len() as int;
    lemma_rfind(input, '@');
    assert(input[at] == '@');
    assert forall|k: int| at < k < input.len() implies input[k] != '@' by {
        assert(input[k] == q[k - at - 1]);
    }
    let k = spec_rfind(input, '@')->Some_0;
    assert(k == at);
    let mention = input.subrange(at + 1, input.len() as int);
    assert(mention =~= q);
    if at > 0 {
        assert(input[at - 1] == p.last());
    }
}

/// The fields of a session that editing the input leaves untouched.
pub open spec fn same_session(a: ChatApp, b: ChatApp) -> bool {
    &&& a.username == b.username
    &&& a.connected == b.connected
    &&& a.exit_notice == b.exit_notice
    &&& a.should_quit == b.should_quit
}

/// Whether `s` holds a white-space character.
fn has_whitespace(s: &[char]) -> (r: bool)
    ensures
        r == exists|i: int| 0 <= i < s@.len() && spec_is_whitespace(#[trigger] s@[i]),
{
    let mut i: usize = 0;
    while i < s.len()
        invariant
            i <= s@.len(),
            forall|k: int| 0 <= k < i ==> !spec_is_whitespace(#[trigger] s@[k]),
        decreases s@.len() - i,
    {
        if is_whitespace(s[i]) {
            return true;
        }
        i = i + 1;
    }
    false
}

/// The word being typed after a trailing `@`, if any.
pub fn active_mention_query(input: &str) -> (r: Option<Vec<char>>)
    ensures
        match spec_active_mention_query(input@) {
            None => r is None,
            Some(q) => r matches Some(v) && v@ == q,
        },
{
    let chars = chars_of(input);
    let at = match rfind_char(&chars, '@') {
        Some(at) => at,
        None => return None,
    };
    proof {
        lemma_rfind(chars@, '@');
    }
    let mention = slice_subrange(chars.as_slice(), at + 1, chars.len());
    if has_whitespace(mention) {
        return None;
    }
    if at > 0 && !is_whitespace(chars[at - 1]) {
        return None;
    }
    Some(slice_to_vec(mention))
}

/// The ASCII lower-case form of a text.
fn lower_chars(s: &[char]) -> (r: Vec<char>)
    ensures
        r@ == spec_ascii_lower_seq(s@),
{
    let mut r: Vec<char> = Vec::new();
    let mut i: usize = 0;
    while i < s.len()
        invariant
            i <= s@.len(),
            r@ == spec_ascii_lower_seq(s@.subrange(0, i as int)),
        decreases s@.len() - i,
    {
        r.push(ascii_lower(s[i]));
        i = i + 1;
        assert(spec_ascii_lower_seq(s@.subrange(0, i as int)) =~= spec_ascii_lower_seq(
            s@.subrange(0, i - 1),
        ).push(spec_ascii_lower(s@[i - 1])));
    }
    r
}

/// Whether `user` completes a query whose lower-case form is `lower_query`.
fn user_completes(user: &str, lower_query: &Vec<char>, Ghost(query): Ghost<Seq<char>>) -> (r: bool)
    requires
        lower_query@ == spec_ascii_lower_seq(query),
    ensures
        r == completes(user@, query),
{
    let chars = chars_of(user);
    let lower = lower_chars(chars.as_slice());
    if lower_query.len() > lower.len() {
        return false;
    }
    let mut k: usize = 0;
    while k < lower_query.len()
        invariant
            lower_query@ == spec_ascii_lower_seq(query),
            lower@ == spec_ascii_lower_seq(user@),
            lower_query@.len() <= lower@.len(),
            k <= lower_query@.len(),
            forall|j: int| 0 <= j < k ==> lower@[j] == lower_query@[j],
        decreases lower_query@.len() - k,
    {
        if lower[k] != lower_query[k] {
            assert(lower@.subrange(0, lower_query@.len() as int)[k as int] != lower_query@[k as int]);
            return false;
        }
        k = k + 1;
    }
    assert(lower@.subrange(0, lower_query@.len() as int) =~= lower_query@);
    true
}

impl ChatApp {
    /// The mention candidates of this session.
    pub open spec fn candidates(&self) -> Seq<Seq<char>> {
        spec_candidates(self.input@, string_views(self.connected_users@))
    }

    /// The selected mention is one of the candidates whenever there are any.
    pub open spec fn selection_in_range(&self) -> bool {
        self.candidates().len() > 0 ==> self.mention_selection < self.candidates().len()
    }

    /// A new session for `username`, connected to `server_addr`.
    pub fn new(username: &str, server_addr: &str) -> (r: ChatApp)
        ensures
            r.username@ == username@,
            r.input@ == Seq::<char>::empty(),
            log_view(r.messages@) == seq![
                ("[system] Connected to "@ + server_addr@, MessageState::Confirmed),
                ("[system] Type a message and press Enter."@, MessageState::Confirmed),
            ],
            string_views(r.connected_users@) == seq![username@],
            r.mention_selection == 0,
            r.connected,
            r.exit_notice is None,
            !r.should_quit,
            r.selection_in_range(),
    {
        let mut connected_notice = "[system] Connected to ".to_owned();
        connected_notice.append(server_addr);
        let mut messages: Vec<ChatMessage> = Vec::new();
        messages.push(ChatMessage { text: connected_notice, state: MessageState::Confirmed });
        messages.push(
            ChatMessage {
                text: "[system] Type a message and press Enter.".to_owned(),
                state: MessageState::Confirmed,
            },
        );
        let mut connected_users: Vec<String> = Vec::new();
        connected_users.push(username.to_owned());
        let r = ChatApp {
            username: username.to_owned(),
            input: String::new(),
            messages,
            connected_users,
            mention_selection: 0,
            connected: true,
            exit_notice: None,
            should_quit: false,
        };
        assert(log_view(r.messages@) =~= seq![
            ("[system] Connected to "@ + server_addr@, MessageState::Confirmed),
            ("[system] Type a message and press Enter."@, MessageState::Confirmed),
        ]);
        assert(string_views(r.connected_users@) =~= seq![username@]);
        r
    }

    /// Appends a message to the log, dropping the oldest ones beyond the
    /// limit.
    pub fn push_message(&mut self, message: String, state: MessageState)
        ensures
            log_view(final(self).messages@) == keep_last(
                log_view(old(self).messages@).push((message@, state)),
                MESSAGE_LIMIT as nat,
            ),
            final(self).messages@.len() <= MESSAGE_LIMIT,
            same_but_log(*old(self), *final(self)),
    {
        let ghost pushed = log_view(self.messages@).push((message@, state));
        self.messages.push(ChatMessage { text: message, state });
        assert(log_view(self.messages@) =~= pushed);
        while self.messages.len() > MESSAGE_LIMIT
            invariant
                same_but_log(*old(self), *self),
                pushed.len() >= self.messages@.len(),
                self.messages@.len() >= MESSAGE_LIMIT || self.messages@.len() == pushed.len(),
                log_view(self.messages@) == pushed.subrange(
                    pushed.len() - self.messages@.len(),
                    pushed.len() as int,
                ),
            decreases self.messages@.len(),
        {
            let ghost before = log_view(self.messages@);
            self.messages.remove(0);
            assert(log_view(self.messages@) =~= before.subrange(1, before.len() as int));
        }
        assert(pushed.subrange(0, pushed.len() as int) =~= pushed);
    }

    /// Marks the oldest pending message with exactly this text as confirmed.
    fn confirm_message(&mut self, message: &String) -> (found: bool)
        ensures
            same_but_log(*old(self), *final(self)),
            found == exists|i: int|
                0 <= i < old(self).messages@.len() && #[trigger] log_view(old(self).messages@)[i]
                    == (message@, MessageState::Pending),
            found ==> exists|i: int|
                0 <= i < old(self).messages@.len() && log_view(old(self).messages@)[i] == (
                message@,
                MessageState::Pending,
            ) && (forall|j: int|
                0 <= j < i ==> #[trigger] log_view(old(self).messages@)[j] != (
                    message@,
                    MessageState::Pending,
                )) && log_view(final(self).messages@) == log_view(old(self).messages@).update(
                i,
                (message@, MessageState::Confirmed),
            ),
            !found ==> final(self).messages@ == old(self).messages@,
    {
        let mut i: usize = 0;
        while i < self.messages.len()
            invariant
                self.messages@ == old(self).messages@,
                same_but_log(*old(self), *self),
                i <= self.messages@.len(),
                forall|j: int|
                    0 <= j < i ==> #[trigger] log_view(self.messages@)[j] != (
                        message@,
                        MessageState::Pending,
                    ),
            decreases self.messages@.len() - i,
        {
            if self.messages[i].state == MessageState::Pending && self.messages[i].text == *message {
                let ghost before = log_view(self.messages@);
                let entry = self.messages.remove(i);
                self.messages.insert(i, ChatMessage { text: entry.text, state: MessageState::Confirmed });
                assert(log_view(self.messages@) =~= before.update(
                    i as int,
                    (message@, MessageState::Confirmed),
                ));
                assert(before[i as int] == (message@, MessageState::Pending));
                return true;
            }
            assert(log_view(self.messages@)[i as int] != (message@, MessageState::Pending));
            i = i + 1;
        }
        false
    }

    /// A message from the server: it confirms the oldest pending message
    /// with the same text, or else joins the log as confirmed.
    pub fn receive_message(&mut self, message: String)
        ensures
            same_but_log(*old(self), *final(self)),
            spec_received(log_view(old(self).messages@), log_view(final(self).messages@), message@),
    {
        if !self.confirm_message(&message) {
            self.push_message(message, MessageState::Confirmed);
        }
    }

    /// Replaces the list of connected users, keeping the mention selection
    /// among the new candidates.
    pub fn update_connected_users(&mut self, users: Vec<String>)
        ensures
            final(self).connected_users@ == users@,
            final(self).username == old(self).username,
            final(self).input == old(self).input,
            final(self).messages@ == old(self).messages@,
            final(self).connected == old(self).connected,
            final(self).exit_notice == old(self).exit_notice,
            final(self).should_quit == old(self).should_quit,
            final(self).mention_selection == if final(self).candidates().len() == 0 {
                0
            } else if old(self).mention_selection >= final(self).candidates().len() {
                (final(self).candidates().len() - 1) as usize
            } else {
                old(self).mention_selection
            },
            final(self).selection_in_range(),
    {
        self.connected_users = users;
        let candidates_len = self.mention_candidates().len();
        if candidates_len == 0 {
            self.mention_selection = 0;
        } else if self.mention_selection >= candidates_len {
            self.mention_selection = candidates_len - 1;
        }
    }

    /// The connection is gone for good: the reason joins the log and is kept
    /// as the exit notice.
    pub fn begin_shutdown(&mut self, reason: String)
        ensures
            log_view(final(self).messages@) == keep_last(
                log_view(old(self).messages@).push(
                    ("[system] "@ + reason@, MessageState::Confirmed),
                ),
                MESSAGE_LIMIT as nat,
            ),
            !final(self).connected,
            final(self).exit_notice == Some(reason),
            final(self).username == old(self).username,
            final(self).input == old(self).input,
            final(self).connected_users == old(self).connected_users,
            final(self).mention_selection == old(self).mention_selection,
            final(self).should_quit == old(self).should_quit,
    {
        let mut notice = "[system] ".to_owned();
        notice.append(reason.as_str());
        self.connected = false;
        self.push_message(notice, MessageState::Confirmed);
        self.exit_notice = Some(reason);
    }

    /// The client is offline: the reason joins the log.
    pub fn mark_offline(&mut self, reason: String)
        ensures
            log_view(final(self).messages@) == keep_last(
                log_view(old(self).messages@).push(
                    ("[system] "@ + reason@, MessageState::Confirmed),
                ),
                MESSAGE_LIMIT as nat,
            ),
            !final(self).connected,
            final(self).exit_notice == old(self).exit_notice,
            final(self).username == old(self).username,
            final(self).input == old(self).input,
            final(self).connected_users == old(self).connected_users,
            final(self).mention_selection == old(self).mention_selection,
            final(self).should_quit == old(self).should_quit,
    {
        let mut notice = "[system] ".to_owned();
        notice.append(reason.as_str());
        self.connected = false;
        self.push_message(notice, MessageState::Confirmed);
    }

    /// The connected users that complete the mention being typed.
    pub fn mention_candidates(&self) -> (r: Vec<String>)
        ensures
            string_views(r@) == self.candidates(),
    {
        let query = match active_mention_query(self.input.as_str()) {
            Some(query) => query,
            None => return Vec::new(),
        };
        let ghost q = query@;
        let ghost users = string_views(self.connected_users@);
        let lower_query = lower_chars(query.as_slice());
        let mut r: Vec<String> = Vec::new();
        let mut i: usize = 0;
        while i < self.connected_users.len()
            invariant
                users == string_views(self.connected_users@),
                lower_query@ == spec_ascii_lower_seq(q),
                i <= self.connected_users@.len(),
                string_views(r@) == spec_completions(users.subrange(0, i as int), q),
            decreases self.connected_users@.len() - i,
        {
            let ghost taken = users.subrange(0, i + 1);
            assert(taken.drop_last() =~= users.subrange(0, i as int));
            assert(taken.last() == self.connected_users@[i as int]@);
            if user_completes(self.connected_users[i].as_str(), &lower_query, Ghost(q)) {
                let ghost before = string_views(r@);
                r.push(self.connected_users[i].clone());
                assert(string_views(r@) =~= before.push(self.connected_users@[i as int]@));
            }
            i = i + 1;
        }
        assert(users.subrange(0, users.len() as int) =~= users);
        r
    }

    /// Types a character.
    pub fn append_input(&mut self, character: char)
        ensures
            same_session(*old(self), *final(self)),
            final(self).input@ == old(self).input@.push(character),
            final(self).mention_selection == 0,
            final(self).messages@ == old(self).messages@,
            final(self).connected_users@ == old(self).connected_users@,
            final(self).selection_in_range(),
    {
        push_char(&mut self.input, character);
        self.reset_mention_selection();
    }

    /// Deletes the last typed character.
    pub fn pop_input(&mut self)
        ensures
            same_session(*old(self), *final(self)),
            old(self).input@.len() > 0 ==> final(self).input@ == old(self).input@.drop_last(),
            old(self).input@.len() == 0 ==> final(self).input@ == old(self).input@,
            final(self).mention_selection == 0,
            final(self).messages@ == old(self).messages@,
            final(self).connected_users@ == old(self).connected_users@,
            final(self).selection_in_range(),
    {
        pop_char(&mut self.input);
        self.reset_mention_selection();
    }

    /// Takes the typed line, trimmed, and clears the input.
    pub fn take_input(&mut self) -> (content: String)
        ensures
            same_session(*old(self), *final(self)),
            content@ == spec_trim(old(self).input@),
            final(self).input@ == Seq::<char>::empty(),
            final(self).mention_selection == old(self).mention_selection,
            final(self).messages@ == old(self).messages@,
            final(self).connected_users@ == old(self).connected_users@,
            final(self).selection_in_range(),
    {
        let chars = chars_of(self.input.as_str());
        let (start, end) = trim_bounds(&chars);
        let content = string_from_chars(slice_subrange(chars.as_slice(), start, end));
        self.input = String::new();
        assert(spec_rfind(self.input@, '@') is None);
        content
    }

    /// Whether the mention selection is one of the candidates, when there
    /// are any.
    pub fn selection_is_valid(&self) -> (r: bool)
        ensures
            r == self.selection_in_range(),
    {
        let candidates = self.mention_candidates();
        candidates.len() == 0 || self.mention_selection < candidates.len()
    }

    /// Whether the session has an exit notice to show.
    pub fn has_exit_notice(&self) -> (r: bool)
        ensures
            r == self.exit_notice is Some,
    {
        self.exit_notice.is_some()
    }

    /// Moves the mention selection up, wrapping to the last candidate.
    pub fn select_previous_mention(&mut self)
        ensures
            same_session(*old(self), *final(self)),
            final(self).input == old(self).input,
            final(self).connected_users@ == old(self).connected_users@,
            final(self).messages@ == old(self).messages@,
            old(self).candidates().len() == 0 ==> final(self).mention_selection == old(self).mention_selection,
            old(self).candidates().len() > 0 ==> final(self).mention_selection == spec_previous_selection(
                old(self).mention_selection as int,
                old(self).candidates().len() as int,
            ),
            old(self).selection_in_range() ==> final(self).selection_in_range(),
    {
        let candidates = self.mention_candidates();
        if candidates.len() == 0 {
            return;
        }
        if self.mention_selection == 0 {
            self.mention_selection = candidates.len() - 1;
        } else {
            self.mention_selection = self.mention_selection - 1;
        }
    }

    /// Moves the mention selection down, wrapping to the first candidate.
    pub fn select_next_mention(&mut self)
        requires
            old(self).candidates().len() > 0 ==> old(self).mention_selection < usize::MAX,
        ensures
            same_session(*old(self), *final(self)),
            final(self).input == old(self).input,
            final(self).connected_users@ == old(self).connected_users@,
            final(self).messages@ == old(self).messages@,
            old(self).candidates().len() == 0 ==> final(self).mention_selection == old(self).mention_selection,
            old(self).candidates().len() > 0 ==> final(self).mention_selection == spec_next_selection(
                old(self).mention_selection as int,
                old(self).candidates().len() as int,
            ),
            final(self).selection_in_range(),
    {
        let candidates = self.mention_candidates();
        if candidates.len() == 0 {
            return;
        }
        self.mention_selection = (self.mention_selection + 1) % candidates.len();
    }

    /// Completes the mention being typed with the selected candidate and a
    /// space.
    pub fn apply_selected_mention(&mut self)
        requires
            old(self).selection_in_range(),
        ensures
            same_session(*old(self), *final(self)),
            final(self).connected_users@ == old(self).connected_users@,
            final(self).messages@ == old(self).messages@,
            old(self).candidates().len() == 0 ==> final(self).input == old(self).input
                && final(self).mention_selection == old(self).mention_selection,
            old(self).candidates().len() > 0 ==> final(self).mention_selection == 0 && final(self).input@ == old(self).input@.subrange(0, spec_rfind(old(self).input@, '@')->0)
                + seq!['@'] + old(self).candidates()[old(self).mention_selection as int]
                + seq![' '],
            final(self).selection_in_range(),
    {
        let candidates = self.mention_candidates();
        if candidates.len() == 0 {
            return;
        }
        let chars = chars_of(self.input.as_str());
        let at = match rfind_char(&chars, '@') {
            Some(at) => at,
            None => return,
        };
        proof {
            lemma_rfind(chars@, '@');
        }
        let mut input = string_from_chars(slice_subrange(chars.as_slice(), 0, at));
        push_char(&mut input, '@');
        input.append(candidates[self.mention_selection].as_str());
        push_char(&mut input, ' ');
        assert(string_views(candidates@)[self.mention_selection as int] == candidates@[self.mention_selection as int]@);
        self.input = input;
        self.mention_selection = 0;
    }

    /// Whether `text` mentions this session's user.
    pub fn message_mentions_current_user(&self, text: &str) -> (r: bool)
        ensures
            r == spec_mentions_from(text@, self.username@, 0),
    {
        message_mentions_user(text, self.username.as_str())
    }

    /// Points the mention selection at the first candidate.
    fn reset_mention_selection(&mut self)
        ensures
            same_session(*old(self), *final(self)),
            final(self).mention_selection == 0,
            final(self).input == old(self).input,
            final(self).messages@ == old(self).messages@,
            final(self).connected_users@ == old(self).connected_users@,
    {
        self.mention_selection = 0;
    }
} // impl ChatApp

} // verus!
