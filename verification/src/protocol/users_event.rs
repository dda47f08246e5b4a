//! The line-based user-list event: `__users__:` followed by the names joined
//! with commas and a newline.

use crate::text::{
    chars_of, push_char, spec_is_whitespace, spec_starts_with, spec_trim, spec_trim_end,
    spec_trim_start, string_from_chars, trim_bounds,
};
use vstd::prelude::*;
use vstd::slice::slice_subrange;
use vstd::string::*;

verus! {

/// The marker that opens a user-list event line.
pub const USERS_EVENT_PREFIX: &'static str = "__users__:";

/// The names joined with commas.
pub open spec fn spec_join_commas(users: Seq<Seq<char>>) -> Seq<char>
    decreases users.len(),
{
    if users.len() == 0 {
        seq![]
    } else if users.len() == 1 {
        users[0]
    } else {
        spec_join_commas(users.drop_last()) + seq![','] + users.last()
    }
}

/// The user-list event line for `users`.
pub open spec fn spec_users_event(users: Seq<Seq<char>>) -> Seq<char> {
    USERS_EVENT_PREFIX@ + spec_join_commas(users) + seq!['\n']
}

/// The comma-separated fields of `s`, as `str::split(',')` gives them; the
/// empty text has one empty field.
pub open spec fn spec_split_commas(s: Seq<char>) -> Seq<Seq<char>>
    decreases s.len(),
{
    if s.len() == 0 {
        seq![seq![]]
    } else {
        let fields = spec_split_commas(s.drop_last());
        if s.last() == ',' {
            fields.push(seq![])
        } else {
            fields.update(fields.len() - 1, fields.last().push(s.last()))
        }
    }
}

/// The fields trimmed of white space, with the empty ones dropped.
pub open spec fn spec_user_list(fields: Seq<Seq<char>>) -> Seq<Seq<char>>
    decreases fields.len(),
{
    if fields.len() == 0 {
        seq![]
    } else {
        let rest = spec_user_list(fields.drop_last());
        let name = spec_trim(fields.last());
        if name.len() > 0 {
            rest.push(name)
        } else {
            rest
        }
    }
}

/// The names a user-list event line announces, if it is one.
pub open spec fn spec_parse_users_event(line: Seq<char>) -> Option<Seq<Seq<char>>> {
    if !spec_starts_with(line, USERS_EVENT_PREFIX@) {
        None
    } else {
        let payload = line.subrange(USERS_EVENT_PREFIX@.len() as int, line.len() as int);
        if payload.len() == 0 {
            Some(seq![])
        } else {
            Some(spec_user_list(spec_split_commas(payload)))
        }
    }
}

/// Splitting always gives at least one field.
pub proof fn lemma_split_commas_nonempty(s: Seq<char>)
    ensures
        spec_split_commas(s).len() >= 1,
    decreases s.len(),
{
    if s.len() > 0 {
        lemma_split_commas_nonempty(s.drop_last());
    }
}

/// A text without commas is a single field.
proof fn lemma_split_no_comma(s: Seq<char>)
    requires
        !s.contains(','),
    ensures
        spec_split_commas(s) == seq![s],
    decreases s.len(),
{
    if s.len() == 0 {
        assert(s =~= Seq::<char>::empty());
    } else {
        let d = s.drop_last();
        assert(!d.contains(',')) by {
            if d.contains(',') {
                let k = choose|k: int| 0 <= k < d.len() && d[k] == ',';
                assert(s[k] == ',');
            }
        }
        lemma_split_no_comma(d);
        assert(s[s.len() - 1] != ',');
        assert(d.push(s.last()) =~= s);
        assert(seq![d].update(0, d.push(s.last())) =~= seq![s]);
    }
}

/// Splitting `a`, a comma and a comma-free `b` gives the fields of `a`
/// followed by `b`.
proof fn lemma_split_append(a: Seq<char>, b: Seq<char>)
    requires
        !b.contains(','),
    ensures
        spec_split_commas(a + seq![','] + b) == spec_split_commas(a).push(b),
    decreases b.len(),
{
    let s = a + seq![','] + b;
    if b.len() == 0 {
        assert(s.drop_last() =~= a);
        assert(s.last() == ',');
        assert(b =~= Seq::<char>::empty());
    } else {
        let bd = b.drop_last();
        assert(!bd.contains(',')) by {
            if bd.contains(',') {
                let k = choose|k: int| 0 <= k < bd.len() && bd[k] == ',';
                assert(b[k] == ',');
            }
        }
        lemma_split_append(a, bd);
        assert(s.drop_last() =~= a + seq![','] + bd);
        assert(s.last() == b.last());
        assert(b[b.len() - 1] != ',');
        assert(bd.push(b.last()) =~= b);
        let f = spec_split_commas(a);
        assert(f.push(bd).update(f.len() as int, bd.push(b.last())) =~= f.push(b));
    }
}

/// Splitting names joined with commas gives the names back, when none of
/// them holds a comma.
proof fn lemma_split_join(users: Seq<Seq<char>>)
    requires
        users.len() >= 1,
        forall|i: int| 0 <= i < users.len() ==> !(#[trigger] users[i]).contains(','),
    ensures
        spec_split_commas(spec_join_commas(users)) == users,
    decreases users.len(),
{
    if users.len() == 1 {
        lemma_split_no_comma(users[0]);
        assert(seq![users[0]] =~= users);
    } else {
        let d = users.drop_last();
        assert forall|i: int| 0 <= i < d.len() implies !(#[trigger] d[i]).contains(',') by {
            assert(d[i] == users[i]);
        }
        lemma_split_join(d);
        assert(!users[users.len() - 1].contains(','));
        lemma_split_append(spec_join_commas(d), users.last());
        assert(d.push(users.last()) =~= users);
    }
}

/// Names that are already trimmed and not empty are kept as they are.
proof fn lemma_user_list_keeps(fields: Seq<Seq<char>>)
    requires
        forall|i: int|
            0 <= i < fields.len() ==> spec_trim(#[trigger] fields[i]) == fields[i]
                && fields[i].len() > 0,
    ensures
        spec_user_list(fields) == fields,
    decreases fields.len(),
{
    if fields.len() > 0 {
        let d = fields.drop_last();
        assert forall|i: int| 0 <= i < d.len() implies spec_trim(#[trigger] d[i]) == d[i]
            && d[i].len() > 0 by {
            assert(d[i] == fields[i]);
        }
        lemma_user_list_keeps(d);
        assert(spec_trim(fields[fields.len() - 1]) == fields[fields.len() - 1]);
        assert(d.push(fields.last()) =~= fields);
    }
}

/// Law: the line of a user-list event, read back without its newline, gives
/// the names it was built from, provided each name is non-empty, carries no
/// surrounding white space and holds no comma.
pub proof fn lemma_users_event_roundtrip(users: Seq<Seq<char>>)
    requires
        forall|i: int|
            0 <= i < users.len() ==> spec_trim(#[trigger] users[i]) == users[i] && users[i].len()
                > 0 && !users[i].contains(','),
    ensures
        spec_parse_users_event(spec_users_event(users).drop_last()) == Some(users),
{
    let line = spec_users_event(users).drop_last();
    let n = USERS_EVENT_PREFIX@.len() as int;
    assert(line =~= USERS_EVENT_PREFIX@ + spec_join_commas(users));
    assert(line.subrange(0, n) =~= USERS_EVENT_PREFIX@);
    let payload = line.subrange(n, line.len() as int);
    assert(payload =~= spec_join_commas(users));
    if users.len() == 0 {
        assert(payload.len() == 0);
        assert(users =~= seq![]);
    } else {
        assert forall|i: int| 0 <= i < users.len() implies !(#[trigger] users[i]).contains(',') by {}
        lemma_split_join(users);
        lemma_user_list_keeps(users);
        if payload.len() == 0 {
            assert(spec_split_commas(payload) =~= seq![seq![]]);
            assert(users[0].len() > 0);
            assert(users =~= seq![Seq::<char>::empty()]);
        }
    }
}

/// Trimming ignores one more white-space character at the end.
proof fn lemma_trim_push_whitespace(s: Seq<char>, c: char)
    requires
        spec_is_whitespace(c),
    ensures
        spec_trim(s.push(c)) == spec_trim(s),
{
    lemma_trim_start_push_whitespace(s, c);
    let t = spec_trim_start(s);
    if t.len() > 0 {
        assert(t.push(c).drop_last() =~= t);
    } else {
        assert(spec_trim_end(t) == t);
    }
}

/// Trimming the start of `s` followed by white space keeps that white
/// space only when something else is left.
proof fn lemma_trim_start_push_whitespace(s: Seq<char>, c: char)
    requires
        spec_is_whitespace(c),
    ensures
        spec_trim_start(s.push(c)) == if spec_trim_start(s).len() > 0 {
            spec_trim_start(s).push(c)
        } else {
            Seq::<char>::empty()
        },
    decreases s.len(),
{
    if s.len() == 0 {
        assert(s.push(c).drop_first() =~= Seq::<char>::empty());
        assert(spec_trim_start(Seq::<char>::empty()) == Seq::<char>::empty());
    } else if spec_is_whitespace(s[0]) {
        assert(s.push(c).drop_first() =~= s.drop_first().push(c));
        lemma_trim_start_push_whitespace(s.drop_first(), c);
    } else {
        assert(s.push(c)[0] == s[0]);
    }
}

/// Law: the line of a user-list event, read back with its newline, gives
/// the names it was built from, provided each name is non-empty, carries no
/// surrounding white space and holds no comma.
pub proof fn lemma_users_event_line_roundtrip(users: Seq<Seq<char>>)
    requires
        forall|i: int|
            0 <= i < users.len() ==> spec_trim(#[trigger] users[i]) == users[i] && users[i].len()
                > 0 && !users[i].contains(','),
    ensures
        spec_parse_users_event(spec_users_event(users)) == Some(users),
{
    let line = spec_users_event(users);
    let n = USERS_EVENT_PREFIX@.len() as int;
    let joined = spec_join_commas(users);
    assert(line.subrange(0, n) =~= USERS_EVENT_PREFIX@);
    let payload = line.subrange(n, line.len() as int);
    assert(payload =~= joined.push('\n'));
    assert(payload.drop_last() =~= joined);
    assert(payload.last() == '\n');
    lemma_split_commas_nonempty(joined);
    let fields = spec_split_commas(joined);
    assert(spec_is_whitespace('\n'));
    if users.len() == 0 {
        assert(joined =~= Seq::<char>::empty());
        assert(fields =~= seq![Seq::<char>::empty()]);
        let last = fields.last().push('\n');
        assert(spec_split_commas(payload) =~= seq![last]);
        lemma_trim_push_whitespace(Seq::<char>::empty(), '\n');
        assert(spec_trim(Seq::<char>::empty()) =~= Seq::<char>::empty());
        assert(last == Seq::<char>::empty().push('\n'));
        assert(spec_trim(last).len() == 0);
        assert(seq![last].drop_last() =~= Seq::<Seq<char>>::empty());
        assert(seq![last].last() == last);
        assert(spec_user_list(Seq::<Seq<char>>::empty()) == Seq::<Seq<char>>::empty());
        assert(spec_user_list(seq![last]) =~= Seq::<Seq<char>>::empty());
        assert(users =~= Seq::<Seq<char>>::empty());
    } else {
        assert forall|i: int| 0 <= i < users.len() implies !(#[trigger] users[i]).contains(',') by {}
        lemma_split_join(users);
        let d = users.drop_last();
        assert forall|i: int| 0 <= i < d.len() implies spec_trim(#[trigger] d[i]) == d[i]
            && d[i].len() > 0 by {
            assert(d[i] == users[i]);
        }
        lemma_user_list_keeps(d);
        let last = users.last();
        lemma_trim_push_whitespace(last, '\n');
        let split = spec_split_commas(payload);
        assert(split == users.update(users.len() - 1, last.push('\n')));
        assert(split.drop_last() =~= d);
        assert(split.last() == last.push('\n'));
        assert(spec_trim(last) == last);
        assert(spec_user_list(split) == d.push(last));
        assert(d.push(last) =~= users);
    }
}

/// The views of a sequence of strings.
pub open spec fn views_of(v: Seq<String>) -> Seq<Seq<char>> {
    v.map_values(|s: String| s@)
}

/// Builds the user-list event line for `users`.
pub fn build_users_event(users: &[String]) -> (r: String)
    ensures
        r@ == spec_users_event(views_of(users@)),
{
    let ghost all = views_of(users@);
    let mut line = USERS_EVENT_PREFIX.to_owned();
    let mut i: usize = 0;
    while i < users.len()
        invariant
            all == views_of(users@),
            i <= users@.len(),
            line@ == USERS_EVENT_PREFIX@ + spec_join_commas(all.subrange(0, i as int)),
        decreases users@.len() - i,
    {
        let ghost before = line@;
        if i > 0 {
            push_char(&mut line, ',');
        }
        line.append(users[i].as_str());
        proof {
            let next = all.subrange(0, i + 1);
            assert(next.drop_last() =~= all.subrange(0, i as int));
            assert(next.last() == users@[i as int]@);
            if i == 0 {
                assert(line@ =~= USERS_EVENT_PREFIX@ + spec_join_commas(next));
            } else {
                assert(line@ =~= USERS_EVENT_PREFIX@ + spec_join_commas(next));
            }
        }
        i = i + 1;
    }
    push_char(&mut line, '\n');
    assert(all.subrange(0, users@.len() as int) =~= all);
    line
}

/// Reads a user-list event line: the names between the commas, trimmed,
/// with the empty ones dropped.
pub fn parse_users_event(line: &str) -> (r: Option<Vec<String>>)
    ensures
        match spec_parse_users_event(line@) {
            None => r is None,
            Some(users) => r matches Some(v) && views_of(v@) == users,
        },
{
    let chars = chars_of(line);
    let prefix = chars_of(USERS_EVENT_PREFIX);
    if prefix.len() > chars.len() {
        return None;
    }
    let mut k: usize = 0;
    while k < prefix.len()
        invariant
            chars@ == line@,
            prefix@ == USERS_EVENT_PREFIX@,
            prefix@.len() <= chars@.len(),
            k <= prefix@.len(),
            forall|j: int| 0 <= j < k ==> chars@[j] == prefix@[j],
        decreases prefix@.len() - k,
    {
        if chars[k] != prefix[k] {
            assert(chars@.subrange(0, prefix@.len() as int)[k as int] != prefix@[k as int]);
            return None;
        }
        k = k + 1;
    }
    assert(chars@.subrange(0, prefix@.len() as int) =~= prefix@);
    let start = prefix.len();
    let ghost payload = chars@.subrange(start as int, chars@.len() as int);
    let mut users: Vec<String> = Vec::new();
    if start == chars.len() {
        return Some(users);
    }
    let mut current: Vec<char> = Vec::new();
    let mut pos = start;
    while pos < chars.len()
        invariant
            start <= pos <= chars@.len(),
            payload == chars@.subrange(start as int, chars@.len() as int),
            views_of(users@) == spec_user_list(
                spec_split_commas(payload.subrange(0, pos - start)).drop_last(),
            ),
            current@ == spec_split_commas(payload.subrange(0, pos - start)).last(),
        decreases chars@.len() - pos,
    {
        let ghost seen = payload.subrange(0, pos - start);
        let ghost next = payload.subrange(0, pos + 1 - start);
        assert(next.drop_last() =~= seen);
        proof {
            lemma_split_commas_nonempty(seen);
        }
        let c = chars[pos];
        if c == ',' {
            let ghost fields = spec_split_commas(seen);
            let (s, e) = trim_bounds(&current);
            if s < e {
                let name = string_from_chars(slice_subrange(current.as_slice(), s, e));
                let ghost old_views = views_of(users@);
                users.push(name);
                assert(views_of(users@) =~= old_views.push(name@));
            }
            assert(spec_split_commas(next).drop_last() =~= fields);
            current = Vec::new();
        } else {
            current.push(c);
            assert(spec_split_commas(next).drop_last() =~= spec_split_commas(seen).drop_last());
        }
        pos = pos + 1;
    }
    let ghost fields = spec_split_commas(payload);
    assert(payload.subrange(0, chars@.len() - start) =~= payload);
    let (s, e) = trim_bounds(&current);
    if s < e {
        let name = string_from_chars(slice_subrange(current.as_slice(), s, e));
        let ghost old_views = views_of(users@);
        users.push(name);
        assert(views_of(users@) =~= old_views.push(name@));
    }
    proof {
        lemma_split_commas_nonempty(payload);
        assert(fields =~= fields.drop_last().push(fields.last()));
    }
    Some(users)
}

} // verus!
