//! The change of a channel's links that nv has decided on and notes down before it makes it.

use vstd::prelude::*;

use crate::channel::{channel_found_by_name, channel_named, Channel};
use crate::error::{error, verdict, worded, NvError};
use crate::metadata::{install_named, install_named_only, parse_install_name};
use crate::path::{shown, UnixPath};
use crate::text::{contents, is_digit, is_line, lemma_first_line, lines, same, split_lines};

verus! {

/// The directories that the links of a channel are to select.
#[derive(Debug)]
pub struct PointerTransaction {
    pub channel: Channel,
    pub current: String,
    pub previous: Option<String>,
}

/// The contents of a `PointerTransaction`.
pub struct Change {
    pub channel: Channel,
    pub current: Seq<char>,
    pub previous: Option<Seq<char>>,
}

/// The contents of a text that may be missing.
pub open spec fn optional(text: Option<String>) -> Option<Seq<char>> {
    match text {
        Some(text) => Some(text@),
        None => None,
    }
}

impl View for PointerTransaction {
    type V = Change;

    open spec fn view(&self) -> Change {
        Change {
            channel: self.channel,
            current: self.current@,
            previous: optional(self.previous),
        }
    }
}

/// Whether `name` is the name of a directory that holds a release of `channel`.
pub open spec fn names_release_of(name: Seq<char>, channel: Channel) -> bool {
    install_named(name) matches Ok((found, _)) && found == channel
}

/// Whether a transaction may select the directory `name`.
pub open spec fn selectable(name: Seq<char>, channel: Channel, path: Seq<u8>) -> Result<
    (),
    Seq<char>,
> {
    match install_named(name) {
        Err(message) => Err(message),
        Ok((found, _)) => verdict(
            found == channel,
            "pointer transaction "@ + shown(path) + " references "@ + found.name()
                + " installation "@ + name + ", expected "@ + channel.name(),
        ),
    }
}

impl Change {
    /// Whether the links would select two different releases of the channel.
    pub open spec fn valid(self) -> bool {
        &&& names_release_of(self.current, self.channel)
        &&& self.previous matches Some(previous) ==> names_release_of(previous, self.channel)
        &&& self.previous != Some(self.current)
    }
}

/// The change that the file at `path` notes down if it holds `text`.
pub open spec fn change_in(text: Seq<char>, path: Seq<u8>) -> Result<Change, Seq<char>> {
    let found = lines(text);
    if found.len() != 3 {
        Err("malformed pointer transaction at "@ + shown(path) + ": expected exactly 3 lines"@)
    } else {
        match channel_named(found[0]) {
            Err(message) => Err(message),
            Ok(channel) => match selectable(found[1], channel, path) {
                Err(message) => Err(message),
                Ok(()) => if found[2] == "none"@ {
                    Ok(Change { channel, current: found[1], previous: None })
                } else {
                    match selectable(found[2], channel, path) {
                        Err(message) => Err(message),
                        Ok(()) => if found[2] == found[1] {
                            Err(
                                "malformed pointer transaction at "@ + shown(path)
                                    + ": current and previous are identical"@,
                            )
                        } else {
                            Ok(
                                Change {
                                    channel,
                                    current: found[1],
                                    previous: Some(found[2]),
                                },
                            )
                        },
                    }
                },
            },
        }
    }
}

/// The file that notes down a change.
pub open spec fn change_text(change: Change) -> Seq<char> {
    change.channel.name() + "\n"@ + change.current + "\n"@ + match change.previous {
        Some(previous) => previous,
        None => "none"@,
    } + "\n"@
}

/// Accepts the name of a directory that holds a release of the expected channel.
pub fn validate_transaction_install(name: &str, expected_channel: Channel, path: &UnixPath) -> (fine:
    Result<(), NvError>)
    ensures
        worded(fine) == selectable(name@, expected_channel, path@),
{
    let (channel, _) = parse_install_name(name)?;
    if channel != expected_channel {
        return Err(
            error(
                "pointer transaction ".to_owned().concat(path.display().as_str()).concat(
                    " references ",
                ).concat(channel.as_str()).concat(" installation ").concat(name).concat(
                    ", expected ",
                ).concat(expected_channel.as_str()),
            ),
        );
    }
    Ok(())
}

impl PointerTransaction {
    /// Reads the transaction file at `path`, which holds `text`.
    pub fn parse(text: &str, path: &UnixPath) -> (transaction: Result<PointerTransaction, NvError>)
        ensures
            match transaction {
                Ok(transaction) => change_in(text@, path@) == Ok::<Change, Seq<char>>(
                    transaction@,
                ),
                Err(cause) => change_in(text@, path@) == Err::<Change, Seq<char>>(cause@),
            },
    {
        let found = split_lines(text);
        assert(contents(found@) == lines(text@));
        if found.len() != 3 {
            return Err(
                error(
                    "malformed pointer transaction at ".to_owned().concat(
                        path.display().as_str(),
                    ).concat(": expected exactly 3 lines"),
                ),
            );
        }
        assert(lines(text@)[0] == found@[0]@);
        assert(lines(text@)[1] == found@[1]@);
        assert(lines(text@)[2] == found@[2]@);
        let channel = Channel::from_name(found[0].as_str())?;
        validate_transaction_install(found[1].as_str(), channel, path)?;
        if same(found[2].as_str(), "none") {
            return Ok(
                PointerTransaction { channel, current: found[1].clone(), previous: None },
            );
        }
        validate_transaction_install(found[2].as_str(), channel, path)?;
        if same(found[2].as_str(), found[1].as_str()) {
            return Err(
                error(
                    "malformed pointer transaction at ".to_owned().concat(
                        path.display().as_str(),
                    ).concat(": current and previous are identical"),
                ),
            );
        }
        Ok(
            PointerTransaction {
                channel,
                current: found[1].clone(),
                previous: Some(found[2].clone()),
            },
        )
    }

    /// The transaction file.
    pub fn serialize(&self) -> (text: String)
        ensures
            text@ == change_text(self@),
    {
        let previous = match &self.previous {
            Some(previous) => previous.as_str(),
            None => "none",
        };
        self.channel.as_str().to_owned().concat("\n").concat(self.current.as_str()).concat(
            "\n",
        ).concat(previous).concat("\n")
    }
}

/// The name of a directory that holds a release fits on a line.
proof fn lemma_name_is_line(name: Seq<char>)
    requires
        install_named(name) is Ok,
    ensures
        is_line(name),
        name.len() > 0,
        name != "none"@,
{
    reveal_strlit("stable");
    reveal_strlit("nightly");
    reveal_strlit("-");
    reveal_strlit("none");
    install_named_only(name);
    let (channel, release) = install_named(name)->Ok_0;
    let head = channel.name() + "-"@;
    assert(name.len() == head.len() + release.len());
    assert forall|k: int| 0 <= k < name.len() implies name[k] != '\n' && name[k] != '\r' by {
        if k >= head.len() {
            assert(name[k] == release[k - head.len()]);
            assert(is_digit(release[k - head.len()]));
        } else {
            assert(name[k] == head[k]);
        }
    }
}

/// A change that nv notes down, it reads back unchanged.
pub proof fn transaction_read_back(change: Change, path: Seq<u8>)
    requires
        change.valid(),
    ensures
        change_in(change_text(change), path) == Ok::<Change, Seq<char>>(change),
{
    reveal_strlit("stable");
    reveal_strlit("nightly");
    reveal_strlit("none");
    reveal_strlit("\n");
    channel_found_by_name(change.channel);
    lemma_name_is_line(change.current);
    let last = match change.previous {
        Some(previous) => previous,
        None => "none"@,
    };
    if change.previous is Some {
        lemma_name_is_line(last);
    }
    let none: Seq<char> = seq![];
    let r3 = last + "\n"@ + none;
    let r2 = change.current + "\n"@ + r3;
    let r1 = change.channel.name() + "\n"@ + r2;
    assert(change_text(change) =~= r1);
    lemma_first_line(last, none);
    lemma_first_line(change.current, r3);
    lemma_first_line(change.channel.name(), r2);
    assert(lines(none) =~= seq![]);
    assert(lines(r1) =~= seq![change.channel.name(), change.current, last]);
}

/// Only a valid change is read from a transaction file.
pub proof fn transaction_read_is_valid(text: Seq<char>, path: Seq<u8>)
    ensures
        change_in(text, path) matches Ok(change) ==> change.valid(),
{
}

} // verus!
