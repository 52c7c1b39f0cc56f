//! Log levels, which of them a threshold lets through, and the text of a
//! log line.
use vstd::prelude::*;
use crate::text::push_all;

verus! {

/// How severe a log message is, from the most to the least severe.
#[derive(Debug, Clone, Copy, PartialEq, Eq, PartialOrd, Ord)]
pub enum Level {
    Error,
    Warn,
    Info,
    Debug,
}

/// The rank of a level: 0 for `Error` up to 3 for `Debug`.
pub open spec fn rank(l: Level) -> nat {
    match l {
        Level::Error => 0,
        Level::Warn => 1,
        Level::Info => 2,
        Level::Debug => 3,
    }
}

/// The name of a level, in capitals.
pub open spec fn level_name(l: Level) -> Seq<char> {
    match l {
        Level::Error => "ERROR"@,
        Level::Warn => "WARN"@,
        Level::Info => "INFO"@,
        Level::Debug => "DEBUG"@,
    }
}

/// The terminal colour code of a level: red, yellow, green, cyan.
pub open spec fn level_colour(l: Level) -> Seq<char> {
    match l {
        Level::Error => "\x1b[31m"@,
        Level::Warn => "\x1b[33m"@,
        Level::Info => "\x1b[32m"@,
        Level::Debug => "\x1b[36m"@,
    }
}

impl Level {
    /// The name of the level (see `level_name`).
    pub fn as_str(self) -> (r: &'static str)
        ensures
            r@ == level_name(self),
    {
        match self {
            Level::Error => "ERROR",
            Level::Warn => "WARN",
            Level::Info => "INFO",
            Level::Debug => "DEBUG",
        }
    }

    /// The colour code of the level (see `level_colour`).
    pub fn colour(self) -> (r: &'static str)
        ensures
            r@ == level_colour(self),
    {
        match self {
            Level::Error => "\x1b[31m",
            Level::Warn => "\x1b[33m",
            Level::Info => "\x1b[32m",
            Level::Debug => "\x1b[36m",
        }
    }

    /// The rank of the level (see `rank`).
    pub fn code(self) -> (r: u8)
        ensures
            r == rank(self),
    {
        match self {
            Level::Error => 0,
            Level::Warn => 1,
            Level::Info => 2,
            Level::Debug => 3,
        }
    }
}

/// Whether a message of `level` is written when the threshold is
/// `threshold`: when it is at least as severe.
pub fn enabled(level: Level, threshold: Level) -> (r: bool)
    ensures
        r == (rank(level) <= rank(threshold)),
{
    level.code() <= threshold.code()
}

/// Raising the threshold never silences a level, and errors are always
/// written.
pub proof fn law_enabled_monotone(level: Level, t1: Level, t2: Level)
    requires
        rank(t1) <= rank(t2),
    ensures
        rank(level) <= rank(t1) ==> rank(level) <= rank(t2),
        rank(Level::Error) <= rank(t1),
{
}

/// The level that `verbose` flags select: errors only without any, then
/// warnings, information, and debugging from three on.
pub fn level_for_verbosity(verbose: u8) -> (r: Level)
    ensures
        rank(r) == if verbose < 3 {
            verbose as nat
        } else {
            3
        },
{
    match verbose {
        0 => Level::Error,
        1 => Level::Warn,
        2 => Level::Info,
        _ => Level::Debug,
    }
}

/// `s` padded with spaces on the right to `width` characters.
pub open spec fn padded(s: Seq<char>, width: nat) -> Seq<char> {
    if s.len() >= width {
        s
    } else {
        s + Seq::new((width - s.len()) as nat, |i: int| ' ')
    }
}

/// The text of a log line: the level's name in its colour, padded to five
/// characters, then the target dimmed, in brackets, then the message.
pub open spec fn log_text(level: Level, target: Seq<char>, message: Seq<char>) -> Seq<char> {
    "["@ + level_colour(level) + padded(level_name(level), 5) + "\x1b[0m"@ + " "@ + "\x1b[90m"@ + target
        + "\x1b[0m"@ + "] "@ + message
}

/// The log line for `message` (see `log_text`).
pub fn log_line(level: Level, target: &str, message: &str) -> (r: String)
    ensures
        r@ == log_text(level, target@, message@),
{
    let mut out = String::new();
    push_all(&mut out, "[");
    push_all(&mut out, level.colour());
    let name = level.as_str();
    push_all(&mut out, name);
    proof {
        reveal_strlit("ERROR");
        reveal_strlit("WARN");
        reveal_strlit("INFO");
        reveal_strlit("DEBUG");
    }
    let ghost before = out@;
    match level {
        Level::Warn | Level::Info => {
            out.push(' ');
            assert(padded(level_name(level), 5) =~= level_name(level) + seq![' ']);
            assert(out@ =~= before + seq![' ']);
        },
        _ => {
            assert(padded(level_name(level), 5) == level_name(level));
        },
    }
    push_all(&mut out, "\x1b[0m");
    push_all(&mut out, " ");
    push_all(&mut out, "\x1b[90m");
    push_all(&mut out, target);
    push_all(&mut out, "\x1b[0m");
    push_all(&mut out, "] ");
    push_all(&mut out, message);
    assert(out@ =~= log_text(level, target@, message@));
    out
}

/// Whether a message of `level` goes to standard error (errors and
/// warnings) rather than standard output.
pub fn to_stderr(level: Level) -> (r: bool)
    ensures
        r == (rank(level) <= 1),
{
    match level {
        Level::Error | Level::Warn => true,
        Level::Info | Level::Debug => false,
    }
}

} // verus!
