//! The release channels of Neovim that nv manages.

use vstd::prelude::*;

use crate::encoding::{decode, decoded};
use crate::error::{error, worded, NvError};
use crate::text::same;

verus! {

/// Where GitHub describes the latest stable release.
pub const STABLE_API_URL: &'static str =
    "https://api.github.com/repos/neovim/neovim/releases/latest";

/// Where GitHub describes the nightly release.
pub const NIGHTLY_API_URL: &'static str =
    "https://api.github.com/repos/neovim/neovim/releases/tags/nightly";

/// A release channel.
#[derive(Clone, Copy, Debug, PartialEq, Eq, PartialOrd, Ord, Structural)]
pub enum Channel {
    Stable,
    Nightly,
}

/// Which channels a command is about.
#[derive(Clone, Copy, Debug, PartialEq, Eq, Structural)]
pub enum ChannelSelection {
    Channel(Channel),
    All,
}

impl DeepView for Channel {
    type V = Channel;

    open spec fn deep_view(&self) -> Channel {
        *self
    }
}

/// The channel with the given name.
pub open spec fn channel_named(name: Seq<char>) -> Result<Channel, Seq<char>> {
    if name == "stable"@ {
        Ok(Channel::Stable)
    } else if name == "nightly"@ {
        Ok(Channel::Nightly)
    } else {
        Err("unsupported channel '"@ + name + "'; expected stable or nightly"@)
    }
}

/// The channel that an argument names.
pub open spec fn channel_given(argument: Seq<u8>) -> Result<Channel, Seq<char>> {
    match decoded(argument) {
        Ok(name) => channel_named(name),
        Err(_) => Err("channel is not valid UTF-8"@),
    }
}

impl Channel {
    /// The name of the channel.
    pub open spec fn name(self) -> Seq<char> {
        match self {
            Channel::Stable => "stable"@,
            Channel::Nightly => "nightly"@,
        }
    }

    /// The channel that an argument names.
    pub fn parse(value: &Vec<u8>) -> (channel: Result<Channel, NvError>)
        ensures
            worded(channel) == channel_given(value@),
    {
        match decode(value) {
            Ok(name) => Channel::from_name(name.as_str()),
            Err(_) => Err(error("channel is not valid UTF-8".to_owned())),
        }
    }

    /// The channel with the given name.
    pub fn from_name(name: &str) -> (channel: Result<Channel, NvError>)
        ensures
            worded(channel) == channel_named(name@),
    {
        if same(name, "stable") {
            Ok(Channel::Stable)
        } else if same(name, "nightly") {
            Ok(Channel::Nightly)
        } else {
            Err(
                error(
                    "unsupported channel '".to_owned().concat(name).concat(
                        "'; expected stable or nightly",
                    ),
                ),
            )
        }
    }

    /// The name of the channel.
    pub fn as_str(self) -> (name: &'static str)
        ensures
            name@ == self.name(),
    {
        match self {
            Channel::Stable => "stable",
            Channel::Nightly => "nightly",
        }
    }

    /// Where GitHub describes the release that the channel offers.
    pub open spec fn url(self) -> Seq<char> {
        match self {
            Channel::Stable => STABLE_API_URL@,
            Channel::Nightly => NIGHTLY_API_URL@,
        }
    }

    /// Where GitHub describes the release that the channel offers.
    pub fn api_url(self) -> (url: &'static str)
        ensures
            url@ == self.url(),
    {
        match self {
            Channel::Stable => STABLE_API_URL,
            Channel::Nightly => NIGHTLY_API_URL,
        }
    }
}

/// The names of the two channels differ.
pub proof fn lemma_channel_names()
    ensures
        Channel::Stable.name() != Channel::Nightly.name(),
{
    reveal_strlit("stable");
    reveal_strlit("nightly");
    assert(Channel::Stable.name().len() != Channel::Nightly.name().len());
}

/// Each channel is found under its own name.
pub proof fn channel_found_by_name(channel: Channel)
    ensures
        channel_named(channel.name()) == Ok::<Channel, Seq<char>>(channel),
{
    lemma_channel_names();
}

} // verus!
