//! User names and the presence payload: a big-endian 16-bit count followed by
//! each name as a big-endian 16-bit byte length and its UTF-8 bytes.

use crate::protocol::frame::{
    bytes_result, encode_frame, spec_encode_frame, FrameError, FrameType,
};
use crate::text::{
    chars_of, has_non_whitespace, is_control, is_whitespace, spec_is_control,
    spec_is_whitespace, str_from_utf8,
};
use vstd::prelude::*;
use vstd::slice::slice_subrange;
use vstd::string::*;
use vstd::utf8::{
    decode_utf8, decode_utf8_encode_utf8, encode_utf8, encode_utf8_decode_utf8, encode_utf8_valid_utf8,
    valid_utf8,
};

verus! {

/// A user name must hold a character other than white space, and no control
/// character.
pub open spec fn spec_is_valid_username(name: Seq<char>) -> bool {
    has_non_whitespace(name) && forall|i: int| 0 <= i < name.len() ==> !spec_is_control(#[trigger] name[i])
}

/// Whether `username` is acceptable as a user name.
pub fn is_valid_username(username: &str) -> (r: bool)
    ensures
        r == spec_is_valid_username(username@),
{
    let chars = chars_of(username);
    let mut seen_non_whitespace = false;
    let mut i: usize = 0;
    while i < chars.len()
        invariant
            chars@ == username@,
            i <= chars@.len(),
            seen_non_whitespace == exists|k: int| 0 <= k < i && !spec_is_whitespace(#[trigger] chars@[k]),
            forall|k: int| 0 <= k < i ==> !spec_is_control(#[trigger] chars@[k]),
        decreases chars@.len() - i,
    {
        if is_control(chars[i]) {
            return false;
        }
        if !is_whitespace(chars[i]) {
            seen_non_whitespace = true;
        }
        i = i + 1;
    }
    seen_non_whitespace
}

/// The two big-endian bytes of a number below 2^16.
pub open spec fn spec_u16_bytes(n: nat) -> Seq<u8> {
    seq![((n / 0x100) % 0x100) as u8, (n % 0x100) as u8]
}

/// The number two big-endian bytes stand for.
pub open spec fn spec_be_u16(hi: u8, lo: u8) -> nat {
    (hi as nat) * 0x100 + (lo as nat)
}

/// The encoded entries of `users`, or the refusal for the first user that
/// is not a valid name or whose UTF-8 bytes do not fit a 16-bit length.
pub open spec fn spec_presence_entries(users: Seq<Seq<char>>) -> Result<Seq<u8>, FrameError>
    decreases users.len(),
{
    if users.len() == 0 {
        Ok(seq![])
    } else {
        let user = users[0];
        let bytes = encode_utf8(user);
        if !spec_is_valid_username(user) {
            Err(FrameError::InvalidUsername)
        } else if bytes.len() > 0xffff {
            Err(FrameError::TooLarge(bytes.len() as usize))
        } else {
            match spec_presence_entries(users.drop_first()) {
                Ok(rest) => Ok(spec_u16_bytes(bytes.len()) + bytes + rest),
                Err(e) => Err(e),
            }
        }
    }
}

/// The presence payload for `users`: the count, then the entries.
pub open spec fn spec_presence_payload(users: Seq<Seq<char>>) -> Result<Seq<u8>, FrameError> {
    if users.len() > 0xffff {
        Err(FrameError::TooLarge(usize::MAX))
    } else {
        match spec_presence_entries(users) {
            Ok(entries) => Ok(spec_u16_bytes(users.len()) + entries),
            Err(e) => Err(e),
        }
    }
}

/// The presence frame for `users`.
pub open spec fn spec_encode_presence(users: Seq<Seq<char>>) -> Result<Seq<u8>, FrameError> {
    match spec_presence_payload(users) {
        Ok(payload) => spec_encode_frame(FrameType::Presence, payload),
        Err(e) => Err(e),
    }
}

/// The views of a sequence of strings.
pub open spec fn string_views(v: Seq<String>) -> Seq<Seq<char>> {
    v.map_values(|s: String| s@)
}

/// `acc` followed by the bytes of `r`, or the refusal in `r`.
pub open spec fn prepend_bytes(acc: Seq<u8>, r: Result<Seq<u8>, FrameError>) -> Result<
    Seq<u8>,
    FrameError,
> {
    match r {
        Ok(rest) => Ok(acc + rest),
        Err(e) => Err(e),
    }
}

/// Encodes the presence frame announcing `users`.
pub fn encode_presence(users: &[String]) -> (r: Result<Vec<u8>, FrameError>)
    ensures
        bytes_result(r) == spec_encode_presence(string_views(users@)),
{
    let ghost all = string_views(users@);
    let count = users.len();
    if count > 0xffff {
        return Err(FrameError::TooLarge(usize::MAX));
    }
    let mut payload: Vec<u8> = Vec::new();
    payload.push((count / 0x100) as u8);
    payload.push((count % 0x100) as u8);
    let ghost head = payload@;
    assert(head =~= spec_u16_bytes(count as nat));
    let mut i: usize = 0;
    assert(all.subrange(0, count as int) =~= all);
    assert(payload@.subrange(2, payload@.len() as int) =~= Seq::<u8>::empty());
    proof {
        match spec_presence_entries(all) {
            Ok(e) => assert(Seq::<u8>::empty() + e =~= e),
            Err(_) => {},
        }
    }
    while i < count
        invariant
            count == users@.len(),
            all == string_views(users@),
            all.len() == count,
            count <= 0xffff,
            i <= count,
            spec_presence_entries(all) == prepend_bytes(
                payload@.subrange(2, payload@.len() as int),
                spec_presence_entries(all.subrange(i as int, count as int)),
            ),
            payload@.len() >= 2,
            payload@.subrange(0, 2) == head,
        decreases count - i,
    {
        let ghost rest = all.subrange(i as int, count as int);
        assert(rest.drop_first() =~= all.subrange(i + 1, count as int));
        assert(rest[0] == users@[i as int]@);
        let user = users[i].as_str();
        if !is_valid_username(user) {
            assert(spec_presence_entries(rest) == Err::<Seq<u8>, FrameError>(
                FrameError::InvalidUsername,
            ));
            return Err(FrameError::InvalidUsername);
        }
        let bytes = user.as_bytes();
        let length = bytes.len();
        if length > 0xffff {
            assert(spec_presence_entries(rest) == Err::<Seq<u8>, FrameError>(
                FrameError::TooLarge(length),
            ));
            return Err(FrameError::TooLarge(length));
        }
        let ghost before = payload@;
        payload.push((length / 0x100) as u8);
        payload.push((length % 0x100) as u8);
        let mut k: usize = 0;
        while k < length
            invariant
                length == bytes@.len(),
                k <= length,
                payload@ == before + spec_u16_bytes(length as nat) + bytes@.subrange(0, k as int),
            decreases length - k,
        {
            payload.push(bytes[k]);
            k = k + 1;
        }
        assert(bytes@.subrange(0, length as int) =~= bytes@);
        assert(payload@.subrange(2, payload@.len() as int) =~= before.subrange(
            2,
            before.len() as int,
        ) + (spec_u16_bytes(length as nat) + bytes@));
        assert(payload@.subrange(0, 2) =~= before.subrange(0, 2));
        proof {
            let acc = before.subrange(2, before.len() as int);
            let entry = spec_u16_bytes(length as nat) + bytes@;
            assert(bytes@ == encode_utf8(rest[0]));
            match spec_presence_entries(all.subrange(i + 1, count as int)) {
                Ok(e) => {
                    assert(spec_presence_entries(rest) == Ok::<Seq<u8>, FrameError>(entry + e));
                    assert(acc + (entry + e) =~= (acc + entry) + e);
                },
                Err(_) => {},
            }
        }
        i = i + 1;
    }
    assert(all.subrange(count as int, count as int) =~= Seq::<Seq<char>>::empty());
    assert(payload@ =~= head + payload@.subrange(2, payload@.len() as int));
    encode_frame(FrameType::Presence, payload.as_slice())
}

/// Reads `count` entries of a presence payload from offset `off`: the names
/// and the offset just past the last one, or `None` when an entry runs past
/// the end, is not UTF-8, or is not a valid user name.
pub open spec fn spec_presence_parse_entries(p: Seq<u8>, off: nat, count: nat) -> Option<
    (Seq<Seq<char>>, nat),
>
    decreases count,
{
    if count == 0 {
        Some((seq![], off))
    } else if off + 2 > p.len() {
        None
    } else {
        let length = spec_be_u16(p[off as int], p[off as int + 1]);
        let start = off + 2;
        if start + length > p.len() {
            None
        } else {
            let bytes = p.subrange(start as int, (start + length) as int);
            if !valid_utf8(bytes) || !spec_is_valid_username(decode_utf8(bytes)) {
                None
            } else {
                match spec_presence_parse_entries(p, start + length, (count - 1) as nat) {
                    None => None,
                    Some((rest, end)) => Some((seq![decode_utf8(bytes)] + rest, end)),
                }
            }
        }
    }
}

/// The names a presence payload announces, if it is well formed: the count
/// says how many entries follow, and they must fill the payload exactly.
pub open spec fn spec_parse_presence(p: Seq<u8>) -> Option<Seq<Seq<char>>> {
    if p.len() < 2 {
        None
    } else {
        match spec_presence_parse_entries(p, 2, spec_be_u16(p[0], p[1])) {
            Some((users, end)) => if end == p.len() {
                Some(users)
            } else {
                None
            },
            None => None,
        }
    }
}

/// `prefix` followed by the names of `r`, keeping its end offset.
pub open spec fn prepend_names(prefix: Seq<Seq<char>>, r: Option<(Seq<Seq<char>>, nat)>) -> Option<
    (Seq<Seq<char>>, nat),
> {
    match r {
        None => None,
        Some((rest, end)) => Some((prefix + rest, end)),
    }
}

/// Decodes a presence payload into the names it announces.
pub fn parse_presence(payload: &[u8]) -> (r: Option<Vec<String>>)
    ensures
        match spec_parse_presence(payload@) {
            None => r is None,
            Some(users) => r matches Some(v) && string_views(v@) == users,
        },
{
    if payload.len() < 2 {
        return None;
    }
    let count = (payload[0] as usize) * 0x100 + (payload[1] as usize);
    let mut offset: usize = 2;
    let mut users: Vec<String> = Vec::new();
    let mut n: usize = 0;
    while n < count
        invariant
            payload@.len() >= 2,
            count == spec_be_u16(payload@[0], payload@[1]),
            n <= count,
            offset <= payload@.len(),
            spec_presence_parse_entries(payload@, 2, count as nat) == prepend_names(
                string_views(users@),
                spec_presence_parse_entries(payload@, offset as nat, (count - n) as nat),
            ),
        decreases count - n,
    {
        if payload.len() - offset < 2 {
            return None;
        }
        let length = (payload[offset] as usize) * 0x100 + (payload[offset + 1] as usize);
        let start = offset + 2;
        if payload.len() - start < length {
            return None;
        }
        let bytes = slice_subrange(payload, start, start + length);
        let user = match str_from_utf8(bytes) {
            Some(user) => user,
            None => return None,
        };
        if !is_valid_username(user) {
            return None;
        }
        let ghost old_views = string_views(users@);
        users.push(user.to_owned());
        assert(string_views(users@) =~= old_views + seq![user@]);
        offset = start + length;
        n = n + 1;
    }
    if offset == payload.len() {
        assert(string_views(users@) + Seq::<Seq<char>>::empty() =~= string_views(users@));
        Some(users)
    } else {
        None
    }
}

/// The two bytes of a number below 2^16 stand for that number.
proof fn lemma_u16_bytes_value(n: nat)
    requires
        n <= 0xffff,
    ensures
        spec_be_u16(spec_u16_bytes(n)[0], spec_u16_bytes(n)[1]) == n,
{
    assert(n / 0x100 < 0x100) by (nonlinear_arith)
        requires
            n <= 0xffff,
    ;
    let b = spec_u16_bytes(n);
    assert(b[0] as nat == n / 0x100);
    assert(b[1] as nat == n % 0x100);
    assert((n / 0x100) * 0x100 + n % 0x100 == n) by (nonlinear_arith);
}

/// Parsing the encoded entries of `users`, wherever they stand in a
/// payload, gives back `users` and the offset just past the entries.
proof fn lemma_presence_entries_parse(users: Seq<Seq<char>>, p: Seq<u8>, off: nat)
    requires
        spec_presence_entries(users) matches Ok(e) && off + e.len() <= p.len() && p.subrange(
            off as int,
            (off + e.len()) as int,
        ) == e,
    ensures
        spec_presence_parse_entries(p, off, users.len()) == Some(
            (users, off + spec_presence_entries(users)->Ok_0.len()),
        ),
    decreases users.len(),
{
    broadcast use encode_utf8_valid_utf8, encode_utf8_decode_utf8;

    let e = spec_presence_entries(users)->Ok_0;
    if users.len() > 0 {
        let user = users[0];
        let bytes = encode_utf8(user);
        let length: int = bytes.len() as int;
        let rest_e = spec_presence_entries(users.drop_first())->Ok_0;
        assert(e == spec_u16_bytes(bytes.len()) + bytes + rest_e);
        assert(p[off as int] == e[0] && p[off as int + 1] == e[1]);
        lemma_u16_bytes_value(bytes.len());
        assert(spec_be_u16(e[0], e[1]) == length);
        let o: int = off as int;
        let start: int = o + 2;
        assert(p.subrange(start, start + length) =~= bytes) by {
            assert forall|k: int| 0 <= k < length implies p.subrange(
                start,
                start + length,
            )[k] == bytes[k] by {
                assert(p.subrange(o, o + e.len())[2 + k] == e[2 + k]);
            }
        }
        assert(p.subrange(start + length, start + length + rest_e.len()) =~= rest_e) by {
            assert forall|k: int| 0 <= k < rest_e.len() implies p.subrange(
                start + length,
                start + length + rest_e.len(),
            )[k] == rest_e[k] by {
                assert(p.subrange(o, o + e.len())[2 + length + k] == e[2 + length
                    + k]);
            }
        }
        lemma_presence_entries_parse(users.drop_first(), p, (start + length) as nat);
        assert(seq![user] + users.drop_first() =~= users);
    }
}

/// Law: the presence payload of a list of names decodes back to that list.
pub proof fn lemma_presence_roundtrip(users: Seq<Seq<char>>)
    requires
        spec_presence_payload(users) is Ok,
    ensures
        spec_presence_payload(users) matches Ok(p) && spec_parse_presence(p) == Some(users),
{
    let p = spec_presence_payload(users)->Ok_0;
    let e = spec_presence_entries(users)->Ok_0;
    let n = users.len();
    lemma_u16_bytes_value(n);
    assert(spec_be_u16(p[0], p[1]) == n);
    assert(p.subrange(2, 2 + e.len() as int) =~= e);
    lemma_presence_entries_parse(users, p, 2);
}

/// Two bytes stand for a number whose two bytes they are.
proof fn lemma_u16_bytes_of(hi: u8, lo: u8)
    ensures
        spec_u16_bytes(spec_be_u16(hi, lo)) == seq![hi, lo],
        spec_be_u16(hi, lo) <= 0xffff,
{
    let n = spec_be_u16(hi, lo);
    assert(n / 0x100 == hi as nat && n % 0x100 == lo as nat) by (nonlinear_arith)
        requires
            n == (hi as nat) * 0x100 + (lo as nat),
            hi < 0x100,
            lo < 0x100,
    ;
    assert(spec_u16_bytes(n) =~= seq![hi, lo]);
}

/// Entries that parse are the encoding of the names they give: reading
/// `count` entries from `off` gives `count` names whose encoded entries are
/// exactly the bytes read.
proof fn lemma_presence_entries_of_parse(p: Seq<u8>, off: nat, count: nat)
    requires
        off <= p.len(),
        spec_presence_parse_entries(p, off, count) is Some,
    ensures
        spec_presence_parse_entries(p, off, count) matches Some((users, end)) && users.len() == count
            && off <= end <= p.len() && spec_presence_entries(users) == Ok::<Seq<u8>, FrameError>(
            p.subrange(off as int, end as int),
        ),
    decreases count,
{
    broadcast use decode_utf8_encode_utf8;

    if count == 0 {
        assert(p.subrange(off as int, off as int) =~= Seq::<u8>::empty());
    } else {
        let length = spec_be_u16(p[off as int], p[off as int + 1]);
        let start = off + 2;
        let bytes = p.subrange(start as int, (start + length) as int);
        let name = decode_utf8(bytes);
        lemma_presence_entries_of_parse(p, start + length, (count - 1) as nat);
        let (rest, end) = spec_presence_parse_entries(p, start + length, (count - 1) as nat)->Some_0;
        let users = seq![name] + rest;
        assert(spec_presence_parse_entries(p, off, count) == Some((users, end)));
        assert(encode_utf8(name) == bytes);
        lemma_u16_bytes_of(p[off as int], p[off as int + 1]);
        assert(users[0] == name);
        assert(users.drop_first() =~= rest);
        assert(spec_u16_bytes(length) + bytes + p.subrange((start + length) as int, end as int)
            =~= p.subrange(off as int, end as int));
    }
}

/// A payload that parses is the presence payload of the names it gives.
pub proof fn lemma_presence_parse_encodes(p: Seq<u8>)
    requires
        spec_parse_presence(p) is Some,
    ensures
        spec_parse_presence(p) matches Some(users) && spec_presence_payload(users) == Ok::<
            Seq<u8>,
            FrameError,
        >(p),
{
    let n = spec_be_u16(p[0], p[1]);
    lemma_presence_entries_of_parse(p, 2, n);
    lemma_u16_bytes_of(p[0], p[1]);
    assert(spec_u16_bytes(n) + p.subrange(2, p.len() as int) =~= p);
}

} // verus!
