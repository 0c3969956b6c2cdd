//! The single-letter commands of the calculator's session.
use vstd::prelude::*;
use crate::text::same_text;

verus! {

/// A session command: show the stack, clear it, print its top, or show help.
#[derive(Debug, Clone, Copy, PartialEq, Eq, Structural)]
pub enum Command {
    Stack,
    Clear,
    Print,
    Help,
}

/// The command that a line names, if it names one.
pub open spec fn command_of(s: Seq<char>) -> Option<Command> {
    if s == "s"@ {
        Some(Command::Stack)
    } else if s == "c"@ {
        Some(Command::Clear)
    } else if s == "p"@ {
        Some(Command::Print)
    } else if s == "h"@ {
        Some(Command::Help)
    } else {
        None
    }
}

impl Command {
    /// Reads a command from its letter: `s`, `c`, `p` or `h`.
    pub fn parse(s: &str) -> (r: Result<Command, &'static str>)
        ensures
            match command_of(s@) {
                Some(c) => r == Ok::<Command, &'static str>(c),
                None => r == Err::<Command, &'static str>("unknown command"),
            },
    {
        if same_text(s, "s") {
            Ok(Command::Stack)
        } else if same_text(s, "c") {
            Ok(Command::Clear)
        } else if same_text(s, "p") {
            Ok(Command::Print)
        } else if same_text(s, "h") {
            Ok(Command::Help)
        } else {
            Err("unknown command")
        }
    }
}

/// Whether a line is one of the session commands.
pub fn is_command(s: &str) -> (r: bool)
    ensures
        r == command_of(s@).is_some(),
{
    same_text(s, "s") || same_text(s, "c") || same_text(s, "p") || same_text(s, "h")
}

} // verus!
