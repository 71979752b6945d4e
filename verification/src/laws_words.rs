//! Which words stand for which command and channel, and what each channel offers.

use vstd::prelude::*;
use vstd::utf8::*;

use crate::channel::{channel_given, channel_named, Channel, ChannelSelection};
use crate::cli::{command_line, Cli};
use crate::encoding::decoded;
use crate::text::decimal;

verus! {

/// How a channel is spelled.
pub open spec fn spelling(channel: Channel) -> Seq<char> {
    match channel {
        Channel::Stable => "stable"@,
        Channel::Nightly => "nightly"@,
    }
}

/// Whether the arguments are how a command is spelled.
pub open spec fn spells(arguments: Seq<Seq<u8>>, cli: Cli) -> bool {
    match cli {
        Cli::Install(channel) => arguments == seq![
            encode_utf8("install"@),
            encode_utf8(spelling(channel)),
        ],
        Cli::Use(channel) => arguments == seq![
            encode_utf8("use"@),
            encode_utf8(spelling(channel)),
        ],
        Cli::Update(ChannelSelection::All) => arguments == seq![encode_utf8("update"@)],
        Cli::Update(ChannelSelection::Channel(channel)) => arguments == seq![
            encode_utf8("update"@),
            encode_utf8(spelling(channel)),
        ],
        Cli::Remove(ChannelSelection::All) => arguments == seq![encode_utf8("remove"@)],
        Cli::Remove(ChannelSelection::Channel(channel)) => arguments == seq![
            encode_utf8("remove"@),
            encode_utf8(spelling(channel)),
        ],
        Cli::Rollback(channel) => arguments == seq![
            encode_utf8("rollback"@),
            encode_utf8(spelling(channel)),
        ],
        Cli::Status => arguments == seq![encode_utf8("status"@)],
        Cli::Help => arguments == seq![encode_utf8("help"@)] || arguments == seq![
            encode_utf8("--help"@),
        ] || arguments == seq![encode_utf8("-h"@)],
    }
}

/// Text is read back from its bytes, and other bytes do not give the same text.
pub proof fn lemma_decoded(bytes: Seq<u8>, text: Seq<char>)
    ensures
        decoded(bytes) == Ok::<Seq<char>, Seq<char>>(text) <==> bytes == encode_utf8(text),
{
    encode_utf8_valid_utf8(text);
    encode_utf8_decode_utf8(text);
    if valid_utf8(bytes) {
        decode_utf8_encode_utf8(bytes);
    }
}

/// A channel is given by its spelling and by nothing else, in an argument as in a file.
pub proof fn channel_is_its_spelling(argument: Seq<u8>, text: Seq<char>, channel: Channel)
    ensures
        channel_given(argument) == Ok::<Channel, Seq<char>>(channel) <==> argument == encode_utf8(
            spelling(channel),
        ),
        channel_named(text) == Ok::<Channel, Seq<char>>(channel) <==> text == spelling(channel),
        channel.name() == spelling(channel),
{
    reveal_strlit("stable");
    reveal_strlit("nightly");
    assert("stable"@.len() != "nightly"@.len());
    lemma_decoded(argument, "stable"@);
    lemma_decoded(argument, "nightly"@);
}

/// The stable channel is described at GitHub's latest release, the nightly channel at the release
/// with its tag, and the two are not the same.
pub proof fn channels_are_described_apart()
    ensures
        Channel::Stable.url() == "https://api.github.com/repos/neovim/neovim/releases/latest"@,
        Channel::Nightly.url()
            == "https://api.github.com/repos/neovim/neovim/releases/tags/nightly"@,
        Channel::Stable.url() != Channel::Nightly.url(),
{
    reveal_strlit("https://api.github.com/repos/neovim/neovim/releases/latest");
    reveal_strlit("https://api.github.com/repos/neovim/neovim/releases/tags/nightly");
    assert(Channel::Stable.url().len() != Channel::Nightly.url().len());
}

/// The words of the commands differ.
proof fn lemma_commands_differ()
    ensures
        "install"@ != "use"@,
        "install"@ != "rollback"@,
        "install"@ != "update"@,
        "install"@ != "remove"@,
        "install"@ != "status"@,
        "install"@ != "help"@,
        "install"@ != "--help"@,
        "install"@ != "-h"@,
        "use"@ != "rollback"@,
        "use"@ != "update"@,
        "use"@ != "remove"@,
        "use"@ != "status"@,
        "use"@ != "help"@,
        "use"@ != "--help"@,
        "use"@ != "-h"@,
        "rollback"@ != "update"@,
        "rollback"@ != "remove"@,
        "rollback"@ != "status"@,
        "rollback"@ != "help"@,
        "rollback"@ != "--help"@,
        "rollback"@ != "-h"@,
        "update"@ != "remove"@,
        "update"@ != "status"@,
        "update"@ != "help"@,
        "update"@ != "--help"@,
        "update"@ != "-h"@,
        "remove"@ != "status"@,
        "remove"@ != "help"@,
        "remove"@ != "--help"@,
        "remove"@ != "-h"@,
        "status"@ != "help"@,
        "status"@ != "--help"@,
        "status"@ != "-h"@,
        "help"@ != "--help"@,
        "help"@ != "-h"@,
        "--help"@ != "-h"@,
{
    reveal_strlit("install");
    reveal_strlit("use");
    reveal_strlit("rollback");
    reveal_strlit("update");
    reveal_strlit("remove");
    reveal_strlit("status");
    reveal_strlit("help");
    reveal_strlit("--help");
    reveal_strlit("-h");
    assert("install"@.len() == 7 && "use"@.len() == 3 && "rollback"@.len() == 8);
    assert("update"@.len() == 6 && "remove"@.len() == 6 && "status"@.len() == 6);
    assert("help"@.len() == 4 && "--help"@.len() == 6 && "-h"@.len() == 2);
    assert("update"@[0] == 'u' && "remove"@[0] == 'r' && "status"@[0] == 's');
    assert("--help"@[0] == '-');
}

/// The bytes of an argument that stands for none of the commands.
proof fn lemma_command_word(arguments: Seq<Seq<u8>>)
    requires
        arguments.len() > 0,
    ensures
        decoded(arguments[0]) matches Ok(text) ==> arguments[0] == encode_utf8(text),
{
    if let Ok(text) = decoded(arguments[0]) {
        lemma_decoded(arguments[0], text);
    }
}

/// Arguments stand for a command exactly if they are how it is spelled: a command about one channel
/// names the channel that it is about, and one that names no channel is about all of them.
pub proof fn command_is_its_spelling(arguments: Seq<Seq<u8>>, cli: Cli)
    ensures
        command_line(arguments) == Ok::<Cli, Seq<char>>(cli) <==> spells(arguments, cli),
{
    lemma_commands_differ();
    if arguments.len() > 0 {
        lemma_command_word(arguments);
        lemma_decoded(arguments[0], "install"@);
        lemma_decoded(arguments[0], "use"@);
        lemma_decoded(arguments[0], "rollback"@);
        lemma_decoded(arguments[0], "update"@);
        lemma_decoded(arguments[0], "remove"@);
        lemma_decoded(arguments[0], "status"@);
        lemma_decoded(arguments[0], "help"@);
        lemma_decoded(arguments[0], "--help"@);
        lemma_decoded(arguments[0], "-h"@);
    }
    if arguments.len() == 1 {
        assert(arguments =~= seq![arguments[0]]);
    }
    if arguments.len() == 2 {
        assert(arguments =~= seq![arguments[0], arguments[1]]);
        channel_is_its_spelling(arguments[1], "stable"@, Channel::Stable);
        channel_is_its_spelling(arguments[1], "nightly"@, Channel::Nightly);
    }
}

/// What nv prints when it is asked for help, and with every refusal of its arguments.
pub open spec fn help() -> Seq<char> {
    "Usage:
  nv install stable|nightly
  nv use stable|nightly
  nv update [stable|nightly]
  nv remove [stable|nightly]
  nv rollback stable|nightly
  nv status
  nv help"@
}

/// Arguments that stand for no command are refused with a message that says why: there is no
/// command, it is unknown or no text, it has too few or too many arguments, or what it names is no
/// channel.
pub proof fn refusal_names_its_reason(arguments: Seq<Seq<u8>>, command: Seq<char>)
    requires
        arguments.len() > 0 ==> decoded(arguments[0]) == Ok::<Seq<char>, Seq<char>>(command)
            || !valid_utf8(arguments[0]),
    ensures
        arguments.len() == 0 ==> command_line(arguments) == Err::<Cli, Seq<char>>(
            "missing command\n\n"@ + help(),
        ),
        arguments.len() > 0 && !valid_utf8(arguments[0]) ==> command_line(arguments) == Err::<
            Cli,
            Seq<char>,
        >("command is not valid UTF-8"@),
        arguments.len() > 0 && valid_utf8(arguments[0]) ==> {
            let given = decimal((arguments.len() - 1) as nat);
            let refused = |expected: Seq<char>|
                Err::<Cli, Seq<char>>(
                    "invalid arguments for '"@ + command + "': expected "@ + expected
                        + ", received "@ + given + "\n\n"@ + help(),
                );
            let one = command == "install"@ || command == "use"@ || command == "rollback"@;
            let at_most_one = command == "update"@ || command == "remove"@;
            let none = command == "status"@ || command == "help"@ || command == "--help"@ || command
                == "-h"@;
            &&& one && arguments.len() != 2 ==> command_line(arguments) == refused(decimal(1))
            &&& at_most_one && arguments.len() > 2 ==> command_line(arguments) == refused(
                "at most 1"@,
            )
            &&& none && arguments.len() != 1 ==> command_line(arguments) == refused(decimal(0))
            &&& (one || at_most_one) && arguments.len() == 2 && !valid_utf8(arguments[1])
                ==> command_line(arguments) == Err::<Cli, Seq<char>>("channel is not valid UTF-8"@)
            &&& (one || at_most_one) && arguments.len() == 2 && valid_utf8(arguments[1]) ==> {
                let word = decode_utf8(arguments[1]);
                word != "stable"@ && word != "nightly"@ ==> command_line(arguments) == Err::<
                    Cli,
                    Seq<char>,
                >("unsupported channel '"@ + word + "'; expected stable or nightly"@)
            }
            &&& !one && !at_most_one && !none ==> command_line(arguments) == Err::<Cli, Seq<char>>(
                "unsupported command '"@ + command + "'\n\n"@ + help(),
            )
        },
{
    lemma_commands_differ();
}

} // verus!
