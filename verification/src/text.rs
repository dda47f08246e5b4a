//! Character-level helpers on Unicode text, each tied to a specification
//! over `Seq<char>`.

use vstd::prelude::*;
use vstd::string::*;
use vstd::utf8::{decode_utf8, valid_utf8};

verus! {

/// The Unicode `White_Space` property, which `char::is_whitespace` tests.
pub open spec fn spec_is_whitespace(c: char) -> bool {
    let v = c as u32;
    ||| 0x09 <= v <= 0x0d
    ||| v == 0x20
    ||| v == 0x85
    ||| v == 0xa0
    ||| v == 0x1680
    ||| 0x2000 <= v <= 0x200a
    ||| v == 0x2028
    ||| v == 0x2029
    ||| v == 0x202f
    ||| v == 0x205f
    ||| v == 0x3000
}

/// The Unicode general category `Cc`, which `char::is_control` tests.
pub open spec fn spec_is_control(c: char) -> bool {
    let v = c as u32;
    v <= 0x1f || (0x7f <= v <= 0x9f)
}

/// Whether `c` is Unicode white space.
pub fn is_whitespace(c: char) -> (r: bool)
    ensures
        r == spec_is_whitespace(c),
{
    let v = c as u32;
    (0x09 <= v && v <= 0x0d) || v == 0x20 || v == 0x85 || v == 0xa0 || v == 0x1680 || (0x2000
        <= v && v <= 0x200a) || v == 0x2028 || v == 0x2029 || v == 0x202f || v == 0x205f || v
        == 0x3000
}

/// Whether `c` is a control character.
pub fn is_control(c: char) -> (r: bool)
    ensures
        r == spec_is_control(c),
{
    let v = c as u32;
    v <= 0x1f || (0x7f <= v && v <= 0x9f)
}

/// The characters of `s`, in order.
pub fn chars_of(s: &str) -> (v: Vec<char>)
    ensures
        v@ == s@,
{
    let n = s.unicode_len();
    let mut v: Vec<char> = Vec::new();
    let mut i: usize = 0;
    while i < n
        invariant
            n == s@.len(),
            i <= n,
            v@ == s@.subrange(0, i as int),
        decreases n - i,
    {
        v.push(s.get_char(i));
        i = i + 1;
    }
    v
}

/// `s` with leading white space removed.
pub open spec fn spec_trim_start(s: Seq<char>) -> Seq<char>
    decreases s.len(),
{
    if s.len() > 0 && spec_is_whitespace(s[0]) {
        spec_trim_start(s.drop_first())
    } else {
        s
    }
}

/// `s` with trailing white space removed.
pub open spec fn spec_trim_end(s: Seq<char>) -> Seq<char>
    decreases s.len(),
{
    if s.len() > 0 && spec_is_whitespace(s.last()) {
        spec_trim_end(s.drop_last())
    } else {
        s
    }
}

/// `s` with leading and trailing white space removed, as `str::trim` does.
pub open spec fn spec_trim(s: Seq<char>) -> Seq<char> {
    spec_trim_end(spec_trim_start(s))
}

/// Whether `s` holds a character that is not white space.
pub open spec fn has_non_whitespace(s: Seq<char>) -> bool {
    exists|i: int| 0 <= i < s.len() && !spec_is_whitespace(#[trigger] s[i])
}

/// Whether `pat` occurs in `s` at position `i`.
pub open spec fn occurs_at(s: Seq<char>, pat: Seq<char>, i: int) -> bool {
    0 <= i && i + pat.len() <= s.len() && s.subrange(i, i + pat.len()) == pat
}

/// The first position at or after `start` where `pat` occurs in `s`.
pub open spec fn spec_find_from(s: Seq<char>, pat: Seq<char>, start: int) -> Option<int>
    decreases s.len() + 1 - start,
{
    if start < 0 || start + pat.len() > s.len() {
        None
    } else if occurs_at(s, pat, start) {
        Some(start)
    } else {
        spec_find_from(s, pat, start + 1)
    }
}

/// Whether `s` starts with `prefix`.
pub open spec fn spec_starts_with(s: Seq<char>, prefix: Seq<char>) -> bool {
    prefix.len() <= s.len() && s.subrange(0, prefix.len() as int) == prefix
}

/// A name for what `char::is_alphanumeric` returns.
pub uninterp spec fn char_is_alphanumeric(c: char) -> bool;

/// Whether `c` is an ASCII letter or digit.
pub open spec fn spec_is_ascii_alphanumeric(c: char) -> bool {
    ('a' <= c <= 'z') || ('A' <= c <= 'Z') || ('0' <= c <= '9')
}

/// Calls `char::is_alphanumeric`.  The contract names the result and states
/// the documented ASCII case: below U+0080 exactly the ASCII letters and
/// digits are alphabetic or numeric.  Other characters follow the Unicode
/// tables of the standard library, which no clause states.
#[verifier::external_body]
pub(crate) fn is_alphanumeric(c: char) -> (r: bool)
    ensures
        r == char_is_alphanumeric(c),
        (c as u32) < 0x80 ==> (r == spec_is_ascii_alphanumeric(c)),
{
    c.is_alphanumeric()
}

/// Calls `String::push`: appends `c`.
#[verifier::external_body]
pub(crate) fn push_char(s: &mut String, c: char)
    ensures
        final(s)@ == old(s)@.push(c),
{
    s.push(c);
}

/// A `String` holding exactly `chars`.
pub fn string_from_chars(chars: &[char]) -> (r: String)
    ensures
        r@ == chars@,
{
    let mut r = String::new();
    let mut i: usize = 0;
    while i < chars.len()
        invariant
            i <= chars@.len(),
            r@ == chars@.subrange(0, i as int),
        decreases chars@.len() - i,
    {
        push_char(&mut r, chars[i]);
        i = i + 1;
    }
    r
}

/// The position just past the leading white space of `s[from..to]`.
fn skip_leading_whitespace(s: &Vec<char>, to: usize) -> (i: usize)
    requires
        to <= s@.len(),
    ensures
        i <= to,
        spec_trim_start(s@.subrange(0, to as int)) == s@.subrange(i as int, to as int),
{
    let mut i: usize = 0;
    while i < to && is_whitespace(s[i])
        invariant
            to <= s@.len(),
            i <= to,
            spec_trim_start(s@.subrange(0, to as int)) == spec_trim_start(
                s@.subrange(i as int, to as int),
            ),
        decreases to - i,
    {
        assert(s@.subrange(i as int, to as int).drop_first() =~= s@.subrange(
            i + 1,
            to as int,
        ));
        i = i + 1;
    }
    i
}

/// The bounds of `spec_trim(s)` inside `s`.
pub fn trim_bounds(s: &Vec<char>) -> (r: (usize, usize))
    ensures
        r.0 <= r.1 <= s@.len(),
        spec_trim(s@) == s@.subrange(r.0 as int, r.1 as int),
{
    let n = s.len();
    let start = skip_leading_whitespace(s, n);
    assert(s@.subrange(0, n as int) =~= s@);
    let mut end: usize = n;
    while end > start && is_whitespace(s[end - 1])
        invariant
            start <= end <= n,
            n == s@.len(),
            spec_trim_end(s@.subrange(start as int, n as int)) == spec_trim_end(
                s@.subrange(start as int, end as int),
            ),
        decreases end,
    {
        assert(s@.subrange(start as int, end as int).drop_last() =~= s@.subrange(
            start as int,
            end - 1,
        ));
        end = end - 1;
    }
    (start, end)
}

/// `s` with leading and trailing white space removed.
pub fn trim_str(s: &str) -> (r: &str)
    ensures
        r@ == spec_trim(s@),
{
    let chars = chars_of(s);
    let (start, end) = trim_bounds(&chars);
    s.substring_char(start, end)
}

/// `s` with trailing white space removed.
pub fn trim_end_str(s: &str) -> (r: &str)
    ensures
        r@ == spec_trim_end(s@),
{
    let chars = chars_of(s);
    let n = chars.len();
    let mut end: usize = n;
    assert(chars@.subrange(0, n as int) =~= chars@);
    while end > 0 && is_whitespace(chars[end - 1])
        invariant
            end <= n,
            n == chars@.len(),
            chars@ == s@,
            spec_trim_end(s@) == spec_trim_end(chars@.subrange(0, end as int)),
        decreases end,
    {
        assert(chars@.subrange(0, end as int).drop_last() =~= chars@.subrange(0, end - 1));
        end = end - 1;
    }
    proof {
        let t = chars@.subrange(0, end as int);
        if t.len() > 0 {
            assert(t.last() == chars@[end - 1]);
        }
    }
    s.substring_char(0, end)
}

/// Whether `s` holds a character that is not white space.
pub fn chars_have_non_whitespace(s: &Vec<char>) -> (r: bool)
    ensures
        r == has_non_whitespace(s@),
{
    let mut i: usize = 0;
    while i < s.len()
        invariant
            i <= s@.len(),
            forall|k: int| 0 <= k < i ==> spec_is_whitespace(#[trigger] s@[k]),
        decreases s@.len() - i,
    {
        if !is_whitespace(s[i]) {
            return true;
        }
        i = i + 1;
    }
    false
}

/// Whether `pat` occurs in `s` at position `i`.
pub fn chars_occur_at(s: &Vec<char>, pat: &[char], i: usize) -> (r: bool)
    ensures
        r == occurs_at(s@, pat@, i as int),
{
    if i > s.len() || pat.len() > s.len() - i {
        return false;
    }
    let mut k: usize = 0;
    while k < pat.len()
        invariant
            i + pat.len() <= s.len(),
            k <= pat@.len(),
            forall|j: int| 0 <= j < k ==> s@[i + j] == pat@[j],
        decreases pat@.len() - k,
    {
        if s[i + k] != pat[k] {
            assert(s@.subrange(i as int, i + pat@.len())[k as int] != pat@[k as int]);
            return false;
        }
        k = k + 1;
    }
    assert(s@.subrange(i as int, i + pat@.len()) =~= pat@);
    true
}

/// The first position at or after `start` where `pat` occurs in `s`.
pub fn find_from(s: &Vec<char>, pat: &[char], start: usize) -> (r: Option<usize>)
    ensures
        match spec_find_from(s@, pat@, start as int) {
            Some(k) => r is Some && r->0 == k,
            None => r is None,
        },
{
    let mut i = start;
    while i <= s.len() && pat.len() <= s.len() - i
        invariant
            start <= i,
            spec_find_from(s@, pat@, start as int) == spec_find_from(s@, pat@, i as int),
        decreases s@.len() + 1 - i,
    {
        if chars_occur_at(s, pat, i) {
            return Some(i);
        }
        if i == s.len() {
            assert(spec_find_from(s@, pat@, i + 1) is None);
            return None;
        }
        i = i + 1;
    }
    None
}

/// What `spec_find_from` gives: the first occurrence at or after `start`,
/// or none at all.
pub proof fn lemma_find_from(s: Seq<char>, pat: Seq<char>, start: int)
    requires
        start >= 0,
    ensures
        match spec_find_from(s, pat, start) {
            Some(k) => start <= k && occurs_at(s, pat, k) && forall|p: int|
                start <= p < k ==> !occurs_at(s, pat, p),
            None => forall|p: int| start <= p ==> !occurs_at(s, pat, p),
        },
    decreases s.len() + 1 - start,
{
    if start + pat.len() > s.len() {
    } else if occurs_at(s, pat, start) {
    } else {
        lemma_find_from(s, pat, start + 1);
    }
}

/// The first occurrence at or after `start` is what `spec_find_from` finds.
pub proof fn lemma_find_from_first(s: Seq<char>, pat: Seq<char>, start: int, k: int)
    requires
        0 <= start <= k,
        occurs_at(s, pat, k),
        forall|p: int| start <= p < k ==> !occurs_at(s, pat, p),
    ensures
        spec_find_from(s, pat, start) == Some(k),
{
    lemma_find_from(s, pat, start);
    match spec_find_from(s, pat, start) {
        Some(j) => {
            if j < k {
                assert(!occurs_at(s, pat, j));
            }
            if k < j {
                assert(!occurs_at(s, pat, k));
            }
        },
        None => {
            assert(!occurs_at(s, pat, k));
        },
    }
}

/// Calls `std::str::from_utf8`: the bytes are read as text exactly when they
/// are well-formed UTF-8, and the text is what they decode to.
#[verifier::external_body]
pub(crate) fn str_from_utf8(bytes: &[u8]) -> (r: Option<&str>)
    ensures
        r is Some <==> valid_utf8(bytes@),
        r matches Some(s) ==> s@ == decode_utf8(bytes@),
{
    std::str::from_utf8(bytes).ok()
}

/// A name for what `String::from_utf8_lossy` gives for a byte sequence.
pub uninterp spec fn utf8_lossy(bytes: Seq<u8>) -> Seq<char>;

/// Calls `String::from_utf8_lossy`, which decodes the bytes and puts a
/// replacement character for each invalid sequence.  The contract names the
/// text and states the decoding of well-formed bytes; the placement of
/// replacement characters is left to the name.
#[verifier::external_body]
pub(crate) fn decode_lossy(bytes: &[u8]) -> (r: String)
    ensures
        r@ == utf8_lossy(bytes@),
        valid_utf8(bytes@) ==> r@ == decode_utf8(bytes@),
{
    String::from_utf8_lossy(bytes).into_owned()
}

/// Calls `String::pop`: removes the last character, if any.
#[verifier::external_body]
pub(crate) fn pop_char(s: &mut String) -> (r: Option<char>)
    ensures
        old(s)@.len() > 0 ==> r == Some(old(s)@.last()) && final(s)@ == old(s)@.drop_last(),
        old(s)@.len() == 0 ==> r is None && final(s)@ == old(s)@,
{
    s.pop()
}

/// The ASCII lower-case form of a character, as `char::to_ascii_lowercase`
/// gives it.
pub open spec fn spec_ascii_lower(c: char) -> char {
    if 'A' <= c <= 'Z' {
        ((c as u32) + 32) as char
    } else {
        c
    }
}

/// The ASCII lower-case form of a text.
pub open spec fn spec_ascii_lower_seq(s: Seq<char>) -> Seq<char> {
    s.map_values(|c: char| spec_ascii_lower(c))
}

/// The ASCII lower-case form of a character.
pub fn ascii_lower(c: char) -> (r: char)
    ensures
        r == spec_ascii_lower(c),
{
    if 'A' <= c && c <= 'Z' {
        let v = (c as u32) + 32;
        proof {
            assert(0x61 <= v <= 0x7a);
        }
        char_from_ascii(v)
    } else {
        c
    }
}

/// The character with code `v`, for an ASCII code.
fn char_from_ascii(v: u32) -> (r: char)
    requires
        v < 0x80,
    ensures
        r == v as char,
{
    (v as u8) as char
}

/// The last position where `c` occurs in `s`.
pub open spec fn spec_rfind(s: Seq<char>, c: char) -> Option<int>
    decreases s.len(),
{
    if s.len() == 0 {
        None
    } else if s.last() == c {
        Some(s.len() - 1)
    } else {
        spec_rfind(s.drop_last(), c)
    }
}

/// What `spec_rfind` gives: the last occurrence, or none at all.
pub proof fn lemma_rfind(s: Seq<char>, c: char)
    ensures
        match spec_rfind(s, c) {
            Some(k) => 0 <= k < s.len() && s[k] == c && forall|p: int| k < p < s.len() ==> s[p] != c,
            None => forall|p: int| 0 <= p < s.len() ==> s[p] != c,
        },
    decreases s.len(),
{
    if s.len() > 0 && s.last() != c {
        lemma_rfind(s.drop_last(), c);
        assert(forall|p: int| 0 <= p < s.len() - 1 ==> s.drop_last()[p] == s[p]);
    }
}

/// The last position where `c` occurs in `s`.
pub fn rfind_char(s: &Vec<char>, c: char) -> (r: Option<usize>)
    ensures
        match spec_rfind(s@, c) {
            Some(k) => r is Some && r->0 == k,
            None => r is None,
        },
{
    let mut i = s.len();
    assert(s@.subrange(0, i as int) =~= s@);
    while i > 0
        invariant
            i <= s@.len(),
            spec_rfind(s@, c) == spec_rfind(s@.subrange(0, i as int), c),
        decreases i,
    {
        assert(s@.subrange(0, i as int).drop_last() =~= s@.subrange(0, i - 1));
        if s[i - 1] == c {
            return Some(i - 1);
        }
        i = i - 1;
    }
    None
}

/// Whether `s` starts with `prefix`.
pub fn starts_with_str(s: &str, prefix: &str) -> (r: bool)
    ensures
        r == spec_starts_with(s@, prefix@),
{
    let chars = chars_of(s);
    let pre = chars_of(prefix);
    if pre.len() > chars.len() {
        return false;
    }
    let mut k: usize = 0;
    while k < pre.len()
        invariant
            chars@ == s@,
            pre@ == prefix@,
            pre@.len() <= chars@.len(),
            k <= pre@.len(),
            forall|j: int| 0 <= j < k ==> chars@[j] == pre@[j],
        decreases pre@.len() - k,
    {
        if chars[k] != pre[k] {
            assert(chars@.subrange(0, pre@.len() as int)[k as int] != pre@[k as int]);
            return false;
        }
        k = k + 1;
    }
    assert(chars@.subrange(0, pre@.len() as int) =~= pre@);
    true
}

/// `s` without `prefix`, if it starts with it.
pub fn strip_prefix_str<'a>(s: &'a str, prefix: &str) -> (r: Option<&'a str>)
    ensures
        r is Some <==> spec_starts_with(s@, prefix@),
        r matches Some(rest) ==> rest@ == s@.subrange(prefix@.len() as int, s@.len() as int),
{
    if starts_with_str(s, prefix) {
        let n = s.unicode_len();
        let p = prefix.unicode_len();
        Some(s.substring_char(p, n))
    } else {
        None
    }
}

/// Whether two texts are equal.
pub fn str_equal(a: &str, b: &str) -> (r: bool)
    ensures
        r == (a@ == b@),
{
    if a.unicode_len() != b.unicode_len() {
        return false;
    }
    let r = starts_with_str(a, b);
    assert(a@.subrange(0, b@.len() as int) =~= a@);
    r
}

} // verus!
