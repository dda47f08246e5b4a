//! Chat lines of the form `[user](time): body`, and `@user` mentions.

use crate::text::{
    char_is_alphanumeric, chars_of, find_from, is_alphanumeric, lemma_find_from,
    lemma_find_from_first, occurs_at, push_char, spec_find_from,
};
use vstd::prelude::*;
use vstd::string::*;

verus! {

/// The separator between the user and the time.
pub open spec fn user_close() -> Seq<char> {
    seq![']', '(']
}

/// The separator between the time and the body.
pub open spec fn time_close() -> Seq<char> {
    seq![')', ':', ' ']
}

/// The chat line `[user](time): body`.
pub open spec fn spec_chat_line(user: Seq<char>, time: Seq<char>, body: Seq<char>) -> Seq<char> {
    seq!['['] + user + user_close() + time + time_close() + body
}

/// The user, time and body of a chat line: the user runs up to the first
/// `](`, the time up to the first `): ` after it, and the line must start
/// with `[`.
pub open spec fn spec_parse_chat(m: Seq<char>) -> Option<(Seq<char>, Seq<char>, Seq<char>)> {
    match spec_find_from(m, user_close(), 0) {
        None => None,
        Some(i) => match spec_find_from(m, time_close(), i + 2) {
            None => None,
            Some(j) => if m.len() > 0 && m[0] == '[' {
                Some((m.subrange(1, i), m.subrange(i + 2, j), m.subrange(j + 3, m.len() as int)))
            } else {
                None
            },
        },
    }
}

/// Formats a chat line from a user name, a time stamp and a body.
pub fn format_chat_message(username: &str, timestamp: &str, content: &str) -> (r: String)
    ensures
        r@ == spec_chat_line(username@, timestamp@, content@),
{
    let mut line = String::new();
    push_char(&mut line, '[');
    line.append(username);
    push_char(&mut line, ']');
    push_char(&mut line, '(');
    line.append(timestamp);
    push_char(&mut line, ')');
    push_char(&mut line, ':');
    push_char(&mut line, ' ');
    line.append(content);
    assert(line@ =~= spec_chat_line(username@, timestamp@, content@));
    line
}

/// Splits a chat line into its user, time and body.
pub fn parse_chat_message(message: &str) -> (r: Option<(&str, &str, &str)>)
    ensures
        match spec_parse_chat(message@) {
            None => r is None,
            Some((user, time, body)) => r matches Some((u, t, b)) && u@ == user && t@ == time
                && b@ == body,
        },
{
    let chars = chars_of(message);
    let close_user = match find_from(&chars, &[']', '('], 0) {
        Some(i) => i,
        None => return None,
    };
    proof {
        lemma_find_from(chars@, user_close(), 0);
        assert(seq![']', '('] =~= user_close());
    }
    let close_time = match find_from(&chars, &[')', ':', ' '], close_user + 2) {
        Some(j) => j,
        None => return None,
    };
    proof {
        lemma_find_from(chars@, time_close(), close_user + 2);
        assert(seq![')', ':', ' '] =~= time_close());
    }
    if chars.len() > 0 && chars[0] == '[' {
        assert(chars@.subrange(close_user as int, close_user + 2)[0] == ']');
        let username = message.substring_char(1, close_user);
        let timestamp = message.substring_char(close_user + 2, close_time);
        let body = message.substring_char(close_time + 3, chars.len());
        Some((username, timestamp, body))
    } else {
        None
    }
}

/// `@` followed by the user name.
pub open spec fn mention_needle(username: Seq<char>) -> Seq<char> {
    seq!['@'] + username
}

/// Whether a mention that ends at `end` ends on a word boundary: at the end
/// of the text, or before a character that is neither alphanumeric nor `_`.
pub open spec fn spec_mention_boundary(text: Seq<char>, end: int) -> bool {
    end >= text.len() || (!char_is_alphanumeric(text[end]) && text[end] != '_')
}

/// Whether `text` mentions `username`, scanning from `pos`: each occurrence
/// of the mention is checked in turn, and the scan resumes after an
/// occurrence that does not end on a word boundary.
pub open spec fn spec_mentions_from(text: Seq<char>, username: Seq<char>, pos: int) -> bool
    decreases text.len() - pos,
{
    if pos < 0 {
        false
    } else {
        match spec_find_from(text, mention_needle(username), pos) {
            None => false,
            Some(k) => {
                proof {
                    lemma_find_from(text, mention_needle(username), pos);
                }
                let end = k + mention_needle(username).len();
                if spec_mention_boundary(text, end) {
                    true
                } else {
                    spec_mentions_from(text, username, end)
                }
            },
        }
    }
}

/// Whether `text` mentions `@username` on a word boundary.
pub fn message_mentions_user(text: &str, username: &str) -> (r: bool)
    ensures
        r == spec_mentions_from(text@, username@, 0),
{
    let chars = chars_of(text);
    let user = chars_of(username);
    let mut needle: Vec<char> = Vec::new();
    needle.push('@');
    let mut i: usize = 0;
    while i < user.len()
        invariant
            i <= user@.len(),
            needle@ == seq!['@'] + user@.subrange(0, i as int),
        decreases user@.len() - i,
    {
        needle.push(user[i]);
        i = i + 1;
    }
    assert(user@.subrange(0, user@.len() as int) =~= user@);
    assert(needle@ =~= mention_needle(username@));
    let mut search_start: usize = 0;
    while search_start <= chars.len()
        invariant
            needle@ == mention_needle(username@),
            chars@ == text@,
            spec_mentions_from(text@, username@, 0) == spec_mentions_from(
                text@,
                username@,
                search_start as int,
            ),
        decreases chars@.len() + 1 - search_start,
    {
        proof {
            lemma_find_from(chars@, needle@, search_start as int);
        }
        let index = match find_from(&chars, needle.as_slice(), search_start) {
            Some(index) => index,
            None => return false,
        };
        let after = index + needle.len();
        if after >= chars.len() {
            return true;
        }
        let next = chars[after];
        if !is_alphanumeric(next) && next != '_' {
            return true;
        }
        search_start = after;
    }
    false
}

/// Whether `pat` occurs anywhere in `s`.
pub open spec fn contains_pattern(s: Seq<char>, pat: Seq<char>) -> bool {
    exists|p: int| occurs_at(s, pat, p)
}

/// Law: a formatted chat line parses back into its user, time and body, as
/// long as the user holds no `](` and the time holds no `): `.
pub proof fn lemma_chat_line_roundtrip(user: Seq<char>, time: Seq<char>, body: Seq<char>)
    requires
        !contains_pattern(user, user_close()),
        !contains_pattern(time, time_close()),
    ensures
        spec_parse_chat(spec_chat_line(user, time, body)) == Some((user, time, body)),
{
    let m = spec_chat_line(user, time, body);
    let uc = user_close();
    let tc = time_close();
    let i: int = user.len() as int + 1;
    let j: int = i + 2 + time.len() as int;
    assert(m.subrange(i, i + 2) =~= uc);
    assert forall|p: int| 0 <= p < i implies !occurs_at(m, uc, p) by {
        if p == 0 {
            assert(m.subrange(p, p + 2)[0] == '[');
        } else if p + 1 < i {
            assert(m.subrange(p, p + 2) =~= user.subrange(p - 1, p + 1));
            assert(!occurs_at(user, uc, p - 1));
        } else {
            assert(m.subrange(p, p + 2)[1] == ']');
        }
    }
    lemma_find_from_first(m, uc, 0, i);
    assert(m.subrange(j, j + 3) =~= tc);
    assert forall|p: int| i + 2 <= p < j implies !occurs_at(m, tc, p) by {
        if p + 3 <= j {
            assert(m.subrange(p, p + 3) =~= time.subrange(p - i - 2, p - i + 1));
            assert(!occurs_at(time, tc, p - i - 2));
        } else if p + 2 == j {
            assert(m.subrange(p, p + 3)[2] == ')');
        } else {
            assert(m.subrange(p, p + 3)[1] == ')');
        }
    }
    lemma_find_from_first(m, tc, i + 2, j);
    assert(m.subrange(1, i) =~= user);
    assert(m.subrange(i + 2, j) =~= time);
    assert(m.subrange(j + 3, m.len() as int) =~= body);
}

/// Law: a reported mention is real: `@username` occurs in the text and ends
/// on a word boundary.
pub proof fn lemma_mention_is_occurrence(text: Seq<char>, username: Seq<char>, pos: int)
    requires
        spec_mentions_from(text, username, pos),
    ensures
        exists|k: int|
            pos <= k && occurs_at(text, mention_needle(username), k) && spec_mention_boundary(
                text,
                k + mention_needle(username).len(),
            ),
    decreases text.len() - pos,
{
    let needle = mention_needle(username);
    lemma_find_from(text, needle, pos);
    let k = spec_find_from(text, needle, pos)->0;
    if !spec_mention_boundary(text, k + needle.len()) {
        lemma_mention_is_occurrence(text, username, k + needle.len());
    }
}

/// Law: when the user name holds no `@`, every occurrence of `@username` on
/// a word boundary is reported as a mention.
pub proof fn lemma_mention_found(text: Seq<char>, username: Seq<char>, pos: int, k: int)
    requires
        0 <= pos <= k,
        !username.contains('@'),
        occurs_at(text, mention_needle(username), k),
        spec_mention_boundary(text, k + mention_needle(username).len()),
    ensures
        spec_mentions_from(text, username, pos),
    decreases text.len() - pos,
{
    let needle = mention_needle(username);
    lemma_find_from(text, needle, pos);
    let f = spec_find_from(text, needle, pos)->0;
    let end = f + needle.len();
    if f != k && !spec_mention_boundary(text, end) {
        assert(f < k);
        if k < end {
            assert(text.subrange(k, k + needle.len())[0] == '@');
            assert(text.subrange(f, end)[k - f] == '@');
            assert(username[k - f - 1] == '@');
        }
        lemma_mention_found(text, username, end, k);
    }
}

} // verus!
