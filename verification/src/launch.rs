//! Start-up arguments of the form `key=value`: `mode=server`, or
//! `mode=client` with `username=<name>`.

use crate::text::{has_non_whitespace, spec_starts_with, str_equal, strip_prefix_str, chars_of, chars_have_non_whitespace};
use vstd::prelude::*;
use vstd::string::*;

verus! {

/// What the program was asked to run.
#[derive(Debug)]
pub enum Command {
    Server,
    Client { username: String },
}

/// Why the start-up arguments, or the session, failed.
#[derive(Debug)]
pub enum AppError {
    MissingMode,
    MissingUsername,
    InvalidMode(String),
    EmptyHandshakeUsername,
    ClientStatePoisoned,
    Io(std::io::Error),
}

/// The value of the last argument of the form `key=value`, with `key`
/// holding the `=`.
pub open spec fn spec_last_value(args: Seq<Seq<char>>, key: Seq<char>) -> Option<Seq<char>>
    decreases args.len(),
{
    if args.len() == 0 {
        None
    } else if spec_starts_with(args.last(), key) {
        Some(args.last().subrange(key.len() as int, args.last().len() as int))
    } else {
        spec_last_value(args.drop_last(), key)
    }
}

/// The outcome of parsing the arguments `args`.
pub enum ParsedCommand {
    Server,
    Client(Seq<char>),
    MissingMode,
    MissingUsername,
    InvalidMode(Seq<char>),
}

/// What the arguments ask for: the last `mode=` decides the mode, and a
/// client needs a last `username=` that is not blank.
pub open spec fn spec_parse_command(args: Seq<Seq<char>>) -> ParsedCommand {
    match spec_last_value(args, "mode="@) {
        None => ParsedCommand::MissingMode,
        Some(mode) => if mode == "server"@ {
            ParsedCommand::Server
        } else if mode == "client"@ {
            match spec_last_value(args, "username="@) {
                Some(name) => if has_non_whitespace(name) {
                    ParsedCommand::Client(name)
                } else {
                    ParsedCommand::MissingUsername
                },
                None => ParsedCommand::MissingUsername,
            }
        } else {
            ParsedCommand::InvalidMode(mode)
        },
    }
}

/// The views of a sequence of strings.
pub open spec fn arg_views(v: Seq<String>) -> Seq<Seq<char>> {
    v.map_values(|s: String| s@)
}

/// The values of the last `mode=` and `username=` arguments.
fn last_values<'a>(args: &'a [String]) -> (r: (Option<&'a str>, Option<&'a str>))
    ensures
        match spec_last_value(arg_views(args@), "mode="@) {
            Some(v) => r.0 matches Some(m) && m@ == v,
            None => r.0 is None,
        },
        match spec_last_value(arg_views(args@), "username="@) {
            Some(v) => r.1 matches Some(u) && u@ == v,
            None => r.1 is None,
        },
{
    let ghost all = arg_views(args@);
    let mut mode: Option<&str> = None;
    let mut username: Option<&str> = None;
    let mut i: usize = 0;
    while i < args.len()
        invariant
            all == arg_views(args@),
            i <= args@.len(),
            match spec_last_value(all.subrange(0, i as int), "mode="@) {
                Some(v) => mode matches Some(m) && m@ == v,
                None => mode is None,
            },
            match spec_last_value(all.subrange(0, i as int), "username="@) {
                Some(v) => username matches Some(u) && u@ == v,
                None => username is None,
            },
        decreases args@.len() - i,
    {
        let ghost next = all.subrange(0, i + 1);
        assert(next.drop_last() =~= all.subrange(0, i as int));
        assert(next.last() == args@[i as int]@);
        let arg = args[i].as_str();
        if let Some(value) = strip_prefix_str(arg, "mode=") {
            mode = Some(value);
        }
        if let Some(value) = strip_prefix_str(arg, "username=") {
            username = Some(value);
        }
        i = i + 1;
    }
    assert(all.subrange(0, args@.len() as int) =~= all);
    (mode, username)
}

/// Reads the start-up arguments.
pub fn parse_command(args: Vec<String>) -> (r: Result<Command, AppError>)
    ensures
        match spec_parse_command(arg_views(args@)) {
            ParsedCommand::Server => r matches Ok(Command::Server),
            ParsedCommand::Client(name) => r matches Ok(Command::Client { username }) && username@
                == name,
            ParsedCommand::MissingMode => r matches Err(AppError::MissingMode),
            ParsedCommand::MissingUsername => r matches Err(AppError::MissingUsername),
            ParsedCommand::InvalidMode(mode) => r matches Err(AppError::InvalidMode(m)) && m@
                == mode,
        },
{
    let (mode, username) = last_values(args.as_slice());
    let mode = match mode {
        Some(mode) => mode,
        None => return Err(AppError::MissingMode),
    };
    if str_equal(mode, "server") {
        Ok(Command::Server)
    } else if str_equal(mode, "client") {
        match username {
            Some(name) => {
                if chars_have_non_whitespace(&chars_of(name)) {
                    Ok(Command::Client { username: name.to_owned() })
                } else {
                    Err(AppError::MissingUsername)
                }
            },
            None => Err(AppError::MissingUsername),
        }
    } else {
        Err(AppError::InvalidMode(mode.to_owned()))
    }
}

/// The values of the last `mode=` and `username=` arguments, empty where an
/// argument is missing.
pub fn peek_process_ctx(args: &[String]) -> (r: (&str, &str))
    ensures
        r.0@ == match spec_last_value(arg_views(args@), "mode="@) {
            Some(v) => v,
            None => Seq::<char>::empty(),
        },
        r.1@ == match spec_last_value(arg_views(args@), "username="@) {
            Some(v) => v,
            None => Seq::<char>::empty(),
        },
{
    let (mode, username) = last_values(args);
    let mode = match mode {
        Some(mode) => mode,
        None => "",
    };
    let username = match username {
        Some(username) => username,
        None => "",
    };
    proof {
        reveal_strlit("");
    }
    (mode, username)
}

} // verus!
