//! The command line.

use vstd::prelude::*;

use crate::channel::{channel_given, Channel, ChannelSelection};
use crate::encoding::{decode, decoded};
use crate::error::{error, worded, NvError};
use crate::text::{decimal, decimal_of, same};

verus! {

/// The commands and their arguments.
pub const USAGE: &'static str = "Usage:
  nv install stable|nightly
  nv use stable|nightly
  nv update [stable|nightly]
  nv remove [stable|nightly]
  nv rollback stable|nightly
  nv status
  nv help";

/// A command with its arguments.
#[derive(Clone, Copy, Debug, PartialEq, Eq, Structural)]
pub enum Cli {
    Install(Channel),
    Use(Channel),
    Update(ChannelSelection),
    Remove(ChannelSelection),
    Rollback(Channel),
    Status,
    Help,
}

/// The bytes of each argument.
pub open spec fn argument_bytes(arguments: Seq<Vec<u8>>) -> Seq<Seq<u8>> {
    arguments.map_values(|argument: Vec<u8>| argument@)
}

/// The message for a command with `given` arguments in place of `expected`.
pub open spec fn wrong_count(command: Seq<char>, expected: Seq<char>, given: nat) -> Seq<char> {
    "invalid arguments for '"@ + command + "': expected "@ + expected + ", received "@ + decimal(
        given,
    ) + "\n\n"@ + USAGE@
}

/// Whether the command line, the command itself included, has exactly `expected` words.
pub open spec fn counted(
    arguments: Seq<Seq<u8>>,
    expected: nat,
    command: Seq<char>,
) -> Result<(), Seq<char>> {
    if arguments.len() == expected {
        Ok(())
    } else {
        Err(
            wrong_count(
                command,
                decimal((expected - 1) as nat),
                if arguments.len() == 0 {
                    0
                } else {
                    (arguments.len() - 1) as nat
                },
            ),
        )
    }
}

/// The one channel that a command names.
pub open spec fn single_channel(arguments: Seq<Seq<u8>>, command: Seq<char>) -> Result<
    Channel,
    Seq<char>,
> {
    match counted(arguments, 2, command) {
        Err(message) => Err(message),
        Ok(()) => channel_given(arguments[1]),
    }
}

/// The channel that a command names, or all of them if it names none.
pub open spec fn selected_channels(arguments: Seq<Seq<u8>>, command: Seq<char>) -> Result<
    ChannelSelection,
    Seq<char>,
> {
    if arguments.len() > 2 {
        Err(wrong_count(command, "at most 1"@, (arguments.len() - 1) as nat))
    } else if arguments.len() < 2 {
        Ok(ChannelSelection::All)
    } else {
        match channel_given(arguments[1]) {
            Err(message) => Err(message),
            Ok(channel) => Ok(ChannelSelection::Channel(channel)),
        }
    }
}

/// The command that the arguments of the program stand for.
pub open spec fn command_line(arguments: Seq<Seq<u8>>) -> Result<Cli, Seq<char>> {
    if arguments.len() == 0 {
        Err("missing command\n\n"@ + USAGE@)
    } else {
        match decoded(arguments[0]) {
            Err(_) => Err("command is not valid UTF-8"@),
            Ok(command) => if command == "install"@ {
                match single_channel(arguments, command) {
                    Err(message) => Err(message),
                    Ok(channel) => Ok(Cli::Install(channel)),
                }
            } else if command == "use"@ {
                match single_channel(arguments, command) {
                    Err(message) => Err(message),
                    Ok(channel) => Ok(Cli::Use(channel)),
                }
            } else if command == "rollback"@ {
                match single_channel(arguments, command) {
                    Err(message) => Err(message),
                    Ok(channel) => Ok(Cli::Rollback(channel)),
                }
            } else if command == "update"@ {
                match selected_channels(arguments, command) {
                    Err(message) => Err(message),
                    Ok(selection) => Ok(Cli::Update(selection)),
                }
            } else if command == "remove"@ {
                match selected_channels(arguments, command) {
                    Err(message) => Err(message),
                    Ok(selection) => Ok(Cli::Remove(selection)),
                }
            } else if command == "status"@ {
                match counted(arguments, 1, command) {
                    Err(message) => Err(message),
                    Ok(()) => Ok(Cli::Status),
                }
            } else if command == "help"@ || command == "--help"@ || command == "-h"@ {
                match counted(arguments, 1, command) {
                    Err(message) => Err(message),
                    Ok(()) => Ok(Cli::Help),
                }
            } else {
                Err("unsupported command '"@ + command + "'\n\n"@ + USAGE@)
            },
        }
    }
}

impl Cli {
    /// The command that the arguments of the program stand for.
    pub fn parse(arguments: &Vec<Vec<u8>>) -> (cli: Result<Cli, NvError>)
        ensures
            worded(cli) == command_line(argument_bytes(arguments@)),
    {
        if arguments.len() == 0 {
            return Err(error("missing command\n\n".to_owned().concat(USAGE)));
        }
        let text = match decode(&arguments[0]) {
            Ok(text) => text,
            Err(_) => return Err(error("command is not valid UTF-8".to_owned())),
        };
        let command = text.as_str();
        if same(command, "install") {
            Ok(Cli::Install(parse_single_channel(arguments, command)?))
        } else if same(command, "use") {
            Ok(Cli::Use(parse_single_channel(arguments, command)?))
        } else if same(command, "rollback") {
            Ok(Cli::Rollback(parse_single_channel(arguments, command)?))
        } else if same(command, "update") {
            Ok(Cli::Update(parse_channel_selection(arguments, command)?))
        } else if same(command, "remove") {
            Ok(Cli::Remove(parse_channel_selection(arguments, command)?))
        } else if same(command, "status") {
            require_argument_count(arguments, 1, command)?;
            Ok(Cli::Status)
        } else if same(command, "help") || same(command, "--help") || same(command, "-h") {
            require_argument_count(arguments, 1, command)?;
            Ok(Cli::Help)
        } else {
            Err(
                error(
                    "unsupported command '".to_owned().concat(command).concat("'\n\n").concat(
                        USAGE,
                    ),
                ),
            )
        }
    }
}

/// The one channel that a command names.
pub fn parse_single_channel(arguments: &Vec<Vec<u8>>, command: &str) -> (channel: Result<
    Channel,
    NvError,
>)
    ensures
        worded(channel) == single_channel(argument_bytes(arguments@), command@),
{
    require_argument_count(arguments, 2, command)?;
    Channel::parse(&arguments[1])
}

/// The channel that a command names, or all of them if it names none.
pub fn parse_channel_selection(arguments: &Vec<Vec<u8>>, command: &str) -> (selection: Result<
    ChannelSelection,
    NvError,
>)
    ensures
        worded(selection) == selected_channels(argument_bytes(arguments@), command@),
{
    if arguments.len() > 2 {
        return Err(
            error(
                "invalid arguments for '".to_owned().concat(command).concat(
                    "': expected ",
                ).concat("at most 1").concat(", received ").concat(
                    decimal_of((arguments.len() - 1) as u128).as_str(),
                ).concat("\n\n").concat(USAGE),
            ),
        );
    }
    if arguments.len() < 2 {
        return Ok(ChannelSelection::All);
    }
    Ok(ChannelSelection::Channel(Channel::parse(&arguments[1])?))
}

/// Accepts a command line of exactly `expected` words, the command itself included.
pub fn require_argument_count(arguments: &Vec<Vec<u8>>, expected: usize, command: &str) -> (fine:
    Result<(), NvError>)
    requires
        expected > 0,
    ensures
        worded(fine) == counted(argument_bytes(arguments@), expected as nat, command@),
{
    if arguments.len() == expected {
        return Ok(());
    }
    let received: usize = if arguments.len() == 0 {
        0
    } else {
        arguments.len() - 1
    };
    Err(
        error(
            "invalid arguments for '".to_owned().concat(command).concat("': expected ").concat(
                decimal_of((expected - 1) as u128).as_str(),
            ).concat(", received ").concat(decimal_of(received as u128).as_str()).concat(
                "\n\n",
            ).concat(USAGE),
        ),
    )
}

} // verus!
