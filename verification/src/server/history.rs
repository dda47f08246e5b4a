//! The bounded history of chat messages that new clients are shown.

use vstd::prelude::*;
use vstd::std_specs::vecdeque::*;
use crate::client::app::keep_last;
use crate::text::{chars_of, string_from_chars};
use vstd::slice::slice_subrange;
use std::collections::VecDeque;

verus! {

/// How many messages the server keeps.
pub const MESSAGE_HISTORY_LIMIT: usize = 100;

/// `s` without its trailing newlines, as `str::trim_end_matches('\n')`
/// gives it.
pub open spec fn spec_trim_newlines(s: Seq<char>) -> Seq<char>
    decreases s.len(),
{
    if s.len() > 0 && s.last() == '\n' {
        spec_trim_newlines(s.drop_last())
    } else {
        s
    }
}

/// `s` without its trailing newlines.
pub fn trim_newlines(s: &str) -> (r: String)
    ensures
        r@ == spec_trim_newlines(s@),
{
    let chars = chars_of(s);
    let mut end = chars.len();
    assert(chars@.subrange(0, end as int) =~= chars@);
    while end > 0 && chars[end - 1] == '\n'
        invariant
            end <= chars@.len(),
            chars@ == s@,
            spec_trim_newlines(s@) == spec_trim_newlines(chars@.subrange(0, end as int)),
        decreases end,
    {
        assert(chars@.subrange(0, end as int).drop_last() =~= chars@.subrange(0, end - 1));
        end = end - 1;
    }
    string_from_chars(slice_subrange(chars.as_slice(), 0, end))
}

/// The last messages, oldest first, never more than the limit.
pub struct MessageHistory {
    entries: VecDeque<String>,
    limit: usize,
}

impl View for MessageHistory {
    type V = Seq<Seq<char>>;

    closed spec fn view(&self) -> Seq<Seq<char>> {
        self.entries@.map_values(|s: String| s@)
    }
}

impl MessageHistory {
    /// The entries never exceed the limit.
    pub closed spec fn wf(&self) -> bool {
        self.entries@.len() <= self.limit
    }

    /// How many messages the history keeps.
    pub closed spec fn spec_limit(&self) -> nat {
        self.limit as nat
    }

    /// An empty history that keeps `limit` messages.
    pub fn new(limit: usize) -> (r: MessageHistory)
        ensures
            r@ == Seq::<Seq<char>>::empty(),
            r.spec_limit() == limit,
            r.wf(),
    {
        let r = MessageHistory { entries: VecDeque::with_capacity(limit), limit };
        assert(r@ =~= Seq::<Seq<char>>::empty());
        r
    }

    /// Records a message without its trailing newlines, dropping the oldest
    /// message once the limit is passed.
    pub fn record(&mut self, message: &str)
        requires
            old(self).wf(),
        ensures
            final(self).wf(),
            final(self)@ == keep_last(
                old(self)@.push(spec_trim_newlines(message@)),
                old(self).spec_limit(),
            ),
            final(self).spec_limit() == old(self).spec_limit(),
            final(self)@.len() <= final(self).spec_limit(),
    {
        let trimmed = trim_newlines(message);
        let ghost before = self@;
        self.entries.push_back(trimmed);
        assert(self@ =~= before.push(spec_trim_newlines(message@)));
        if self.entries.len() > self.limit {
            let ghost pushed = self@;
            self.entries.pop_front();
            assert(self@ =~= pushed.subrange(1, pushed.len() as int));
        }
    }

    /// The recorded messages, oldest first.
    pub fn snapshot(&self) -> (r: Vec<String>)
        ensures
            r@.map_values(|s: String| s@) == self@,
    {
        let mut r: Vec<String> = Vec::new();
        let mut i: usize = 0;
        while i < self.entries.len()
            invariant
                i <= self.entries@.len(),
                r@.map_values(|s: String| s@) == self@.subrange(0, i as int),
            decreases self.entries@.len() - i,
        {
            let ghost before = r@.map_values(|s: String| s@);
            r.push(self.entries[i].clone());
            assert(r@.map_values(|s: String| s@) =~= before.push(self.entries@[i as int]@));
            assert(self@.subrange(0, i + 1) =~= self@.subrange(0, i as int).push(self@[i as int]));
            i = i + 1;
        }
        assert(self@.subrange(0, self@.len() as int) =~= self@);
        r
    }
}

/// Law: recording into a history that already keeps only the last `limit`
/// messages gives the same as keeping the last `limit` of everything, so a
/// history always holds the last `limit` messages recorded, oldest first.
pub proof fn lemma_keep_last_push<T>(s: Seq<T>, x: T, limit: nat)
    ensures
        keep_last(keep_last(s, limit).push(x), limit) == keep_last(s.push(x), limit),
{
    let a = keep_last(keep_last(s, limit).push(x), limit);
    let b = keep_last(s.push(x), limit);
    assert(a =~= b);
}

} // verus!
