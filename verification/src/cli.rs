//! The vocabulary of the command line: which way to convert, from where,
//! to where.

use crate::text::same_text;
use std::str::FromStr;
use vstd::prelude::*;

verus! {

/// The direction of a conversion.
#[derive(Clone, Copy, Debug, PartialEq, Eq, Structural)]
pub enum Command {
    /// From a document to a directory tree.
    Explode,
    /// From a directory tree to a document.
    Implode,
}

/// What the command line asks for.
#[derive(Clone, Debug, PartialEq, Eq)]
pub struct Cli {
    /// The direction of the conversion.
    pub cmd: Command,
    /// Path to the source input.
    pub source: String,
    /// Path to where the output is written.
    pub destination: String,
}

/// The command that a word names: `explode` or `implode`, in lower case.
pub open spec fn command_of(input: Seq<char>) -> Option<Command> {
    if input == "explode"@ {
        Some(Command::Explode)
    } else if input == "implode"@ {
        Some(Command::Implode)
    } else {
        None
    }
}

impl Command {
    /// The command that `input` names; any other word is refused.
    pub fn parse(input: &str) -> (r: Result<Command, &'static str>)
        ensures
            match r {
                Ok(command) => command_of(input@) == Some(command),
                Err(message) => command_of(input@) is None && message@ == "Invalid Command"@,
            },
    {
        if same_text(input, "explode") {
            Ok(Command::Explode)
        } else if same_text(input, "implode") {
            Ok(Command::Implode)
        } else {
            Err("Invalid Command")
        }
    }
}

impl FromStr for Command {
    type Err = &'static str;

    /// The command that `input` names; any other word is refused with the
    /// message `Invalid Command`.
    fn from_str(input: &str) -> (r: Result<Command, &'static str>)
        ensures
            match r {
                Ok(command) => command_of(input@) == Some(command),
                Err(message) => command_of(input@) is None && message@ == "Invalid Command"@,
            },
    {
        Command::parse(input)
    }
}

} // verus!
