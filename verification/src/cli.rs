//! The sub-command command line: `server [--listen ADDR] [--latency-ms MS]`
//! or `client --username NAME [--connect ADDR]`.  Options take their value
//! as the next argument or after `=`.

use crate::launch::arg_views;
use crate::text::{
    chars_have_non_whitespace, chars_of, find_from, has_non_whitespace, lemma_find_from,
    spec_find_from, spec_starts_with, starts_with_str, str_equal, string_from_chars,
};
use vstd::prelude::*;
use vstd::slice::{slice_subrange, slice_to_vec};
use vstd::string::*;

verus! {

/// What the command line asks for.
#[derive(Debug)]
pub enum Command {
    Server { listen: Option<String>, latency_ms: Option<u64> },
    Client { username: String, connect: Option<String> },
}

/// Why a command line was refused.
#[derive(Clone, Copy, Debug, PartialEq, Eq, Structural)]
pub enum CliError {
    MissingSubcommand,
    UnknownSubcommand,
    HelpRequested,
    UnexpectedArgument,
    MissingValue,
    DuplicateArgument,
    InvalidValue,
    MissingRequiredArgument,
}

/// The value of a decimal digit.
pub open spec fn digit_value(c: char) -> nat {
    ((c as u32) - ('0' as u32)) as nat
}

/// Whether every character of `s` is a decimal digit.
pub open spec fn all_digits(s: Seq<char>) -> bool {
    forall|i: int| 0 <= i < s.len() ==> '0' <= #[trigger] s[i] <= '9'
}

/// The number a string of decimal digits stands for.
pub open spec fn digits_value(s: Seq<char>) -> nat
    decreases s.len(),
{
    if s.len() == 0 {
        0
    } else {
        digits_value(s.drop_last()) * 10 + digit_value(s.last())
    }
}

/// The `u64` a decimal text stands for, with an optional leading `+`, as
/// `u64::from_str` reads it.
pub open spec fn spec_parse_u64(s: Seq<char>) -> Option<u64> {
    let digits = if s.len() > 0 && s[0] == '+' {
        s.drop_first()
    } else {
        s
    };
    if digits.len() > 0 && all_digits(digits) && digits_value(digits) <= u64::MAX {
        Some(digits_value(digits) as u64)
    } else {
        None
    }
}

/// Reads a decimal `u64`.
pub fn parse_u64(s: &str) -> (r: Option<u64>)
    ensures
        r == spec_parse_u64(s@),
{
    let chars = chars_of(s);
    let start: usize = if chars.len() > 0 && chars[0] == '+' {
        1
    } else {
        0
    };
    let ghost digits = if s@.len() > 0 && s@[0] == '+' {
        s@.drop_first()
    } else {
        s@
    };
    assert(digits =~= chars@.subrange(start as int, chars@.len() as int));
    if start == chars.len() {
        return None;
    }
    let mut value: u64 = 0;
    let mut i = start;
    while i < chars.len()
        invariant
            chars@ == s@,
            start <= i <= chars@.len(),
            digits == (if s@.len() > 0 && s@[0] == '+' {
                s@.drop_first()
            } else {
                s@
            }),
            digits == chars@.subrange(start as int, chars@.len() as int),
            all_digits(chars@.subrange(start as int, i as int)),
            value as nat == digits_value(chars@.subrange(start as int, i as int)),
        decreases chars@.len() - i,
    {
        let c = chars[i];
        let ghost seen = chars@.subrange(start as int, i + 1);
        assert(seen.drop_last() =~= chars@.subrange(start as int, i as int));
        if c < '0' || c > '9' {
            assert(digits[i - start] == c);
            return None;
        }
        let d = (c as u32 - '0' as u32) as u64;
        if value > (u64::MAX - d) / 10 {
            proof {
                assert(value * 10 + d > u64::MAX) by (nonlinear_arith)
                    requires
                        value > (u64::MAX - d) / 10,
                        d <= 9,
                ;
                assert(digits_value(seen) == value * 10 + d);
                if all_digits(digits) {
                    lemma_digits_value_monotone(digits, i + 1 - start);
                    assert(digits.subrange(0, i + 1 - start) =~= seen);
                }
            }
            return None;
        }
        assert(value * 10 + d <= u64::MAX) by (nonlinear_arith)
            requires
                value <= (u64::MAX - d) / 10,
                d <= 9,
        ;
        value = value * 10 + d;
        i = i + 1;
    }
    Some(value)
}

/// Digit strings only grow in value as they get longer.
proof fn lemma_digits_value_monotone(s: Seq<char>, k: int)
    requires
        0 <= k <= s.len(),
        all_digits(s),
    ensures
        digits_value(s.subrange(0, k)) <= digits_value(s),
    decreases s.len() - k,
{
    if k < s.len() {
        lemma_digits_value_monotone(s, k + 1);
        assert(s.subrange(0, k + 1).drop_last() =~= s.subrange(0, k));
    } else {
        assert(s.subrange(0, k) =~= s);
    }
}

/// The long names of a sub-command's two options.
pub open spec fn option_names(server: bool) -> (Seq<char>, Seq<char>) {
    if server {
        ("listen"@, "latency-ms"@)
    } else {
        ("username"@, "connect"@)
    }
}

/// Whether `value` is acceptable for the option in slot `slot`: the latency
/// must be a number and the user name must not be blank.
pub open spec fn value_ok(server: bool, slot: int, value: Seq<char>) -> bool {
    if server && slot == 1 {
        spec_parse_u64(value) is Some
    } else if !server && slot == 0 {
        has_non_whitespace(value)
    } else {
        true
    }
}

/// The slot an option name fills, if the sub-command has it.
pub open spec fn option_slot(server: bool, name: Seq<char>) -> Option<int> {
    if name == option_names(server).0 {
        Some(0)
    } else if name == option_names(server).1 {
        Some(1)
    } else {
        None
    }
}

/// Whether an argument may serve as an option's value: anything but a
/// flag, though a lone `-` is a value.
pub open spec fn is_value(arg: Seq<char>) -> bool {
    !(arg.len() > 1 && arg[0] == '-')
}

/// The option values collected so far.
pub type Slots = (Option<Seq<char>>, Option<Seq<char>>);

/// Records `value` for the option `name`, then reads the arguments from
/// `next` on.
pub open spec fn spec_set_option(
    server: bool,
    args: Seq<Seq<char>>,
    next: int,
    slots: Slots,
    name: Seq<char>,
    value: Seq<char>,
) -> Result<Slots, CliError>
    decreases args.len() - next, 1int,
{
    match option_slot(server, name) {
        None => Err(CliError::UnexpectedArgument),
        Some(slot) => {
            if (slot == 0 && slots.0 is Some) || (slot == 1 && slots.1 is Some) {
                Err(CliError::DuplicateArgument)
            } else if !value_ok(server, slot, value) {
                Err(CliError::InvalidValue)
            } else if slot == 0 {
                spec_options(server, args, next, (Some(value), slots.1))
            } else {
                spec_options(server, args, next, (slots.0, Some(value)))
            }
        },
    }
}

/// Reads the options of a sub-command from position `i` on.
pub open spec fn spec_options(server: bool, args: Seq<Seq<char>>, i: int, slots: Slots) -> Result<
    Slots,
    CliError,
>
    decreases args.len() - i, 0int,
{
    if i < 0 || i >= args.len() {
        Ok(slots)
    } else {
        let arg = args[i];
        if arg == "-h"@ || arg == "--help"@ {
            Err(CliError::HelpRequested)
        } else if !spec_starts_with(arg, "--"@) {
            Err(CliError::UnexpectedArgument)
        } else {
            let body = arg.subrange(2, arg.len() as int);
            match spec_find_from(body, seq!['='], 0) {
                Some(eq) => {
                    proof {
                        lemma_find_from(body, seq!['='], 0);
                    }
                    spec_set_option(
                        server,
                        args,
                        i + 1,
                        slots,
                        body.subrange(0, eq),
                        body.subrange(eq + 1, body.len() as int),
                    )
                },
                None => if i + 1 < args.len() && is_value(args[i + 1]) {
                    spec_set_option(server, args, i + 2, slots, body, args[i + 1])
                } else if option_slot(server, body) is Some {
                    Err(CliError::MissingValue)
                } else {
                    Err(CliError::UnexpectedArgument)
                },
            }
        }
    }
}

/// What a command line asks for, in spec terms.
pub enum CommandSpec {
    Server { listen: Option<Seq<char>>, latency_ms: Option<u64> },
    Client { username: Seq<char>, connect: Option<Seq<char>> },
}

/// What the command line `args` asks for: the first argument names the
/// program, the second the sub-command.
pub open spec fn spec_parse_cli(args: Seq<Seq<char>>) -> Result<CommandSpec, CliError> {
    if args.len() < 2 {
        Err(CliError::MissingSubcommand)
    } else {
        let sub = args[1];
        if sub == "server"@ || sub == "client"@ {
            let server = sub == "server"@;
            match spec_options(server, args, 2, (None, None)) {
                Err(e) => Err(e),
                Ok((first, second)) => if server {
                    Ok(
                        CommandSpec::Server {
                            listen: first,
                            latency_ms: match second {
                                Some(v) => spec_parse_u64(v),
                                None => None,
                            },
                        },
                    )
                } else {
                    match first {
                        None => Err(CliError::MissingRequiredArgument),
                        Some(name) => Ok(CommandSpec::Client { username: name, connect: second }),
                    }
                },
            }
        } else if sub == "help"@ || sub == "-h"@ || sub == "--help"@ {
            Err(CliError::HelpRequested)
        } else {
            Err(CliError::UnknownSubcommand)
        }
    }
}

/// The text of an optional string.
pub open spec fn opt_view(o: Option<String>) -> Option<Seq<char>> {
    match o {
        Some(s) => Some(s@),
        None => None,
    }
}

/// Whether a parsed command is what the spec describes.
pub open spec fn command_matches(c: Command, s: CommandSpec) -> bool {
    match (c, s) {
        (
            Command::Server { listen, latency_ms },
            CommandSpec::Server { listen: l, latency_ms: m },
        ) => opt_view(listen) == l && latency_ms == m,
        (
            Command::Client { username, connect },
            CommandSpec::Client { username: u, connect: c },
        ) => username@ == u && opt_view(connect) == c,
        _ => false,
    }
}

/// Slots of real strings seen as slots of texts.
pub open spec fn slots_view(a: &Option<String>, b: &Option<String>) -> Slots {
    (opt_view(*a), opt_view(*b))
}

/// Whether `arg` may serve as an option's value.
fn arg_is_value(arg: &str) -> (r: bool)
    ensures
        r == is_value(arg@),
{
    let chars = chars_of(arg);
    !(chars.len() > 1 && chars[0] == '-')
}

/// The slot an option name fills.
fn slot_of(server: bool, name: &str) -> (r: Option<usize>)
    ensures
        match option_slot(server, name@) {
            Some(s) => r == Some(s as usize),
            None => r is None,
        },
{
    if server {
        if str_equal(name, "listen") {
            Some(0)
        } else if str_equal(name, "latency-ms") {
            Some(1)
        } else {
            None
        }
    } else {
        if str_equal(name, "username") {
            Some(0)
        } else if str_equal(name, "connect") {
            Some(1)
        } else {
            None
        }
    }
}

/// Parses the command line; the first argument names the program.
pub fn parse_command(args: Vec<String>) -> (r: Result<Command, CliError>)
    ensures
        match spec_parse_cli(arg_views(args@)) {
            Err(e) => r == Err::<Command, CliError>(e),
            Ok(s) => r matches Ok(c) && command_matches(c, s),
        },
{
    let ghost all = arg_views(args@);
    if args.len() < 2 {
        return Err(CliError::MissingSubcommand);
    }
    let sub = args[1].as_str();
    let server = str_equal(sub, "server");
    let client = str_equal(sub, "client");
    if !server && !client {
        if str_equal(sub, "help") || str_equal(sub, "-h") || str_equal(sub, "--help") {
            return Err(CliError::HelpRequested);
        }
        return Err(CliError::UnknownSubcommand);
    }
    let mut first: Option<String> = None;
    let mut second: Option<String> = None;
    let mut i: usize = 2;
    while i < args.len()
        invariant
            all == arg_views(args@),
            all.len() == args@.len(),
            2 <= i <= args@.len() + 1,
            server == (all[1] == "server"@),
            all[1] == "server"@ || all[1] == "client"@,
            spec_options(server, all, 2, (None, None)) == spec_options(
                server,
                all,
                i as int,
                slots_view(&first, &second),
            ),
        decreases args@.len() + 1 - i,
    {
        let arg = args[i].as_str();
        assert(all[i as int] == arg@);
        if str_equal(arg, "-h") || str_equal(arg, "--help") {
            return Err(CliError::HelpRequested);
        }
        if !starts_with_str(arg, "--") {
            return Err(CliError::UnexpectedArgument);
        }
        let chars = chars_of(arg);
        proof {
            reveal_strlit("--");
        }
        let body = slice_subrange(chars.as_slice(), 2, chars.len());
        let body_vec = slice_to_vec(body);
        proof {
            lemma_find_from(body_vec@, seq!['='], 0);
        }
        let eq_sign: [char; 1] = ['='];
        assert(eq_sign@ =~= seq!['=']);
        let (name, value, next): (String, String, usize) = match find_from(&body_vec, eq_sign.as_slice(), 0) {
            Some(eq) => {
                (
                    string_from_chars(slice_subrange(body, 0, eq)),
                    string_from_chars(slice_subrange(body, eq + 1, body.len())),
                    i + 1,
                )
            },
            None => {
                if i + 1 < args.len() && arg_is_value(args[i + 1].as_str()) {
                    (string_from_chars(body), args[i + 1].clone(), i + 2)
                } else {
                    let name = string_from_chars(body);
                    if slot_of(server, name.as_str()).is_some() {
                        return Err(CliError::MissingValue);
                    }
                    return Err(CliError::UnexpectedArgument);
                }
            },
        };
        let slot = match slot_of(server, name.as_str()) {
            Some(slot) => slot,
            None => return Err(CliError::UnexpectedArgument),
        };
        if (slot == 0 && first.is_some()) || (slot == 1 && second.is_some()) {
            return Err(CliError::DuplicateArgument);
        }
        if server && slot == 1 {
            if parse_u64(value.as_str()).is_none() {
                return Err(CliError::InvalidValue);
            }
        } else if !server && slot == 0 {
            if !chars_have_non_whitespace(&chars_of(value.as_str())) {
                return Err(CliError::InvalidValue);
            }
        }
        if slot == 0 {
            first = Some(value);
        } else {
            second = Some(value);
        }
        i = next;
    }
    if server {
        let latency_ms = match &second {
            Some(v) => parse_u64(v.as_str()),
            None => None,
        };
        Ok(Command::Server { listen: first, latency_ms })
    } else {
        match first {
            None => Err(CliError::MissingRequiredArgument),
            Some(username) => Ok(Command::Client { username, connect: second }),
        }
    }
}

} // verus!
