//! Where nv keeps its state and its links.

use vstd::prelude::*;
use vstd::utf8::encode_utf8;

use crate::channel::Channel;
use crate::error::{error, NvError};
use crate::path::{absolute, joined, shown, UnixPath};

verus! {

/// What nv links as the executable.
pub const NVIM_LINK_TARGET: &'static str = "../share/nv/active/bin/nvim";

/// The places that nv manages.
#[derive(Debug)]
pub struct Paths {
    pub state: UnixPath,
    pub installs: UnixPath,
    pub channels: UnixPath,
    pub staging: UnixPath,
    pub active: UnixPath,
    pub lock: UnixPath,
    pub transaction: UnixPath,
    pub local_bin: UnixPath,
    pub nvim_link: UnixPath,
}

/// The path with the text `relative`, seen from `base`.
pub open spec fn within(base: Seq<u8>, relative: Seq<char>) -> Seq<u8> {
    joined(base, encode_utf8(relative))
}

/// The name of the directory that holds a release.
pub open spec fn install_name(channel: Channel, release: Seq<char>) -> Seq<char> {
    channel.name() + "-"@ + release
}

/// The contents of `Paths`.
pub struct Places {
    pub state: Seq<u8>,
    pub installs: Seq<u8>,
    pub channels: Seq<u8>,
    pub staging: Seq<u8>,
    pub active: Seq<u8>,
    pub lock: Seq<u8>,
    pub transaction: Seq<u8>,
    pub local_bin: Seq<u8>,
    pub nvim_link: Seq<u8>,
}

impl View for Paths {
    type V = Places;

    open spec fn view(&self) -> Places {
        Places {
            state: self.state@,
            installs: self.installs@,
            channels: self.channels@,
            staging: self.staging@,
            active: self.active@,
            lock: self.lock@,
            transaction: self.transaction@,
            local_bin: self.local_bin@,
            nvim_link: self.nvim_link@,
        }
    }
}

/// The places below the home directory `home`.
pub open spec fn places_below(home: Seq<u8>) -> Places {
    let state = within(home, ".local/share/nv"@);
    let local_bin = within(home, ".local/bin"@);
    Places {
        state,
        installs: within(state, "installs"@),
        channels: within(state, "channels"@),
        staging: within(state, "staging"@),
        active: within(state, "active"@),
        lock: within(state, "operation.lock"@),
        transaction: within(state, "pointer.transaction"@),
        local_bin,
        nvim_link: within(local_bin, "nvim"@),
    }
}

/// The places below the home directory that the environment names, which must be absolute.
pub open spec fn places_of(home: Option<Seq<u8>>) -> Result<Places, Seq<char>> {
    match home {
        None => Err("HOME is not set"@),
        Some(home) => if home.len() == 0 {
            Err("HOME is empty"@)
        } else if !absolute(home) {
            Err("HOME must be an absolute path, got "@ + shown(home))
        } else {
            Ok(places_below(home))
        },
    }
}

impl Places {
    /// The directory that holds the links of a channel.
    pub open spec fn directory_of(self, channel: Channel) -> Seq<u8> {
        within(self.channels, channel.name())
    }

    /// A link of a channel.
    pub open spec fn link_of(self, channel: Channel, name: Seq<char>) -> Seq<u8> {
        within(self.directory_of(channel), name)
    }

    /// The directory that holds a release of a channel.
    pub open spec fn install_of(self, channel: Channel, release: Seq<char>) -> Seq<u8> {
        within(self.installs, install_name(channel, release))
    }
}

impl Paths {
    /// The places below the home directory that the environment names.
    pub fn discover(home: &Option<UnixPath>) -> (paths: Result<Paths, NvError>)
        ensures
            match paths {
                Ok(paths) => places_of(home.deep_view()) == Ok::<Places, Seq<char>>(paths@),
                Err(cause) => places_of(home.deep_view()) == Err::<Places, Seq<char>>(cause@),
            },
    {
        match home {
            None => Err(error("HOME is not set".to_owned())),
            Some(home) => {
                if home.bytes.len() == 0 {
                    return Err(error("HOME is empty".to_owned()));
                }
                Paths::from_home(home)
            },
        }
    }

    /// The places below the home directory `home`, which must be absolute.
    pub fn from_home(home: &UnixPath) -> (paths: Result<Paths, NvError>)
        ensures
            match paths {
                Ok(paths) => absolute(home@) && paths@ == places_below(home@),
                Err(cause) => !absolute(home@) && cause@ == "HOME must be an absolute path, got "@
                    + shown(home@),
            },
    {
        if !home.is_absolute() {
            return Err(
                error(
                    "HOME must be an absolute path, got ".to_owned().concat(
                        home.display().as_str(),
                    ),
                ),
            );
        }
        let state = home.join(".local/share/nv");
        let local_bin = home.join(".local/bin");
        Ok(
            Paths {
                installs: state.join("installs"),
                channels: state.join("channels"),
                staging: state.join("staging"),
                active: state.join("active"),
                lock: state.join("operation.lock"),
                transaction: state.join("pointer.transaction"),
                nvim_link: local_bin.join("nvim"),
                local_bin,
                state,
            },
        )
    }

    /// The directory that holds the links of a channel.
    pub fn channel_dir(&self, channel: Channel) -> (path: UnixPath)
        ensures
            path@ == self@.directory_of(channel),
    {
        self.channels.join(channel.as_str())
    }

    /// A link of a channel.
    pub fn channel_link(&self, channel: Channel, name: &str) -> (path: UnixPath)
        ensures
            path@ == self@.link_of(channel, name@),
    {
        self.channel_dir(channel).join(name)
    }

    /// The directory that holds a release of a channel.
    pub fn install_dir(&self, channel: Channel, release: &str) -> (path: UnixPath)
        ensures
            path@ == self@.install_of(channel, release@),
    {
        self.installs.join(channel.as_str().to_owned().concat("-").concat(release).as_str())
    }
}

/// The directories of which the state consists.
pub open spec fn layout(paths: Places) -> Seq<Seq<u8>> {
    seq![
        paths.installs,
        paths.channels,
        paths.staging,
        paths.directory_of(Channel::Stable),
        paths.directory_of(Channel::Nightly),
    ]
}

/// The bytes of each path in a list.
pub open spec fn path_bytes(paths: Seq<UnixPath>) -> Seq<Seq<u8>> {
    paths.map_values(|path: UnixPath| path@)
}

/// The directories of which the state consists.
pub fn layout_directories(paths: &Paths) -> (directories: Vec<UnixPath>)
    ensures
        path_bytes(directories@) == layout(paths@),
{
    let mut directories: Vec<UnixPath> = Vec::new();
    directories.push(paths.installs.copy());
    directories.push(paths.channels.copy());
    directories.push(paths.staging.copy());
    directories.push(paths.channel_dir(Channel::Stable));
    directories.push(paths.channel_dir(Channel::Nightly));
    assert(path_bytes(directories@) =~= layout(paths@));
    directories
}

/// What a link of a channel points to if it selects the directory `name`.
pub open spec fn link_target(name: Seq<char>) -> Seq<u8> {
    joined(encode_utf8("../../installs"@), encode_utf8(name))
}

/// What a link of a channel points to if it selects the directory `directory_name`.
pub fn channel_relative_target(directory_name: &str) -> (target: UnixPath)
    ensures
        target@ == link_target(directory_name@),
{
    UnixPath::new("../../installs").join(directory_name)
}

} // verus!
