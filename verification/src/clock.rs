//! The local time of day that stamps chat lines, and how a time of day is
//! written: two digits of hours, a colon, two digits of minutes.

use crate::text::push_char;
use vstd::prelude::*;
use vstd::string::*;

verus! {

/// Whether `t` reads as a time of day written `HH:MM`.
pub open spec fn is_clock_time(t: Seq<char>) -> bool {
    &&& t.len() == 5
    &&& t[2] == ':'
    &&& forall|i: int| 0 <= i < 5 && i != 2 ==> '0' <= #[trigger] t[i] <= '9'
}

/// The decimal digit character for `d`, below ten.
pub open spec fn spec_digit(d: nat) -> char {
    seq!['0', '1', '2', '3', '4', '5', '6', '7', '8', '9'][d as int]
}

/// The time of day `hour`:`minute` written `HH:MM`, each number in two
/// zero-padded digits.
pub open spec fn spec_clock_stamp(hour: nat, minute: nat) -> Seq<char> {
    seq![
        spec_digit(hour / 10),
        spec_digit(hour % 10),
        ':',
        spec_digit(minute / 10),
        spec_digit(minute % 10),
    ]
}

/// The number a digit character stands for.
pub open spec fn digit_value(c: char) -> int {
    c as int - '0' as int
}

/// Calls `chrono::Local::now` and reads the local time of day's hour and
/// minute (`Timelike::hour`, `Timelike::minute`).  The time depends on the
/// clock; chrono documents the hour as 0 to 23 and the minute as 0 to 59,
/// which is what the contract states.
#[verifier::external_body]
pub(crate) fn local_clock_time() -> (r: (u32, u32))
    ensures
        r.0 < 24,
        r.1 < 60,
{
    let now = chrono::Local::now();
    (chrono::Timelike::hour(&now), chrono::Timelike::minute(&now))
}

/// The digit character for `d`.
fn digit(d: u32) -> (r: char)
    requires
        d < 10,
    ensures
        r == spec_digit(d as nat),
{
    match d {
        0 => '0',
        1 => '1',
        2 => '2',
        3 => '3',
        4 => '4',
        5 => '5',
        6 => '6',
        7 => '7',
        8 => '8',
        _ => '9',
    }
}

/// The time of day `hour`:`minute` written `HH:MM`, as chrono's `%H:%M`
/// writes it.
pub fn clock_stamp(hour: u32, minute: u32) -> (r: String)
    requires
        hour < 24,
        minute < 60,
    ensures
        r@ == spec_clock_stamp(hour as nat, minute as nat),
{
    let mut r = String::new();
    push_char(&mut r, digit(hour / 10));
    push_char(&mut r, digit(hour % 10));
    push_char(&mut r, ':');
    push_char(&mut r, digit(minute / 10));
    push_char(&mut r, digit(minute % 10));
    assert(r@ =~= spec_clock_stamp(hour as nat, minute as nat));
    r
}

/// A digit character stands for its number.
proof fn lemma_digit_value(d: nat)
    requires
        d < 10,
    ensures
        digit_value(spec_digit(d)) == d,
        '0' <= spec_digit(d) <= '9',
{
    assert(seq!['0', '1', '2', '3', '4', '5', '6', '7', '8', '9'][d as int] == (
    '0' as int + d) as char) by {
        if d == 0 {
        } else if d == 1 {
        } else if d == 2 {
        } else if d == 3 {
        } else if d == 4 {
        } else if d == 5 {
        } else if d == 6 {
        } else if d == 7 {
        } else if d == 8 {
        } else {
        }
    }
}

/// Law: a written time of day reads as `HH:MM` and reads back as the hour
/// and minute it was written from: the first two digits give the hour, the
/// last two the minute.
pub proof fn lemma_clock_stamp_reads_back(hour: nat, minute: nat)
    requires
        hour < 24,
        minute < 60,
    ensures
        is_clock_time(spec_clock_stamp(hour, minute)),
        digit_value(spec_clock_stamp(hour, minute)[0]) * 10 + digit_value(
            spec_clock_stamp(hour, minute)[1],
        ) == hour,
        digit_value(spec_clock_stamp(hour, minute)[3]) * 10 + digit_value(
            spec_clock_stamp(hour, minute)[4],
        ) == minute,
{
    lemma_digit_value(hour / 10);
    lemma_digit_value(hour % 10);
    lemma_digit_value(minute / 10);
    lemma_digit_value(minute % 10);
    let t = spec_clock_stamp(hour, minute);
    assert forall|i: int| 0 <= i < 5 && i != 2 implies '0' <= #[trigger] t[i] <= '9' by {}
}

} // verus!
