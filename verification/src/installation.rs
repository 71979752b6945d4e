//! The installed releases, and the links by which a channel selects two of them.

use vstd::prelude::*;
use vstd::utf8::encode_utf8;

use crate::channel::Channel;
use crate::encoding::{decode, decoded, encode, same_bytes};
use crate::error::{error, verdict, NvError};
use crate::host::{
    failed, group_walked, looked, settled, told, Attempt, Deed, Entry, Lookup, Session, Sight, Stop,
    World,
};
use crate::layout::{real_directory, require_real_directory};
use crate::metadata::{install_named, parse_install_name, record_in, InstallMetadata, Record};
use crate::path::{last_name, lies_in, pieces, pieces_of, shown, Component, Piece, UnixPath};
use crate::paths::{within, Paths, Places};
use crate::text::same;

verus! {

broadcast use group_walked;

/// An installed release.
#[derive(Debug)]
pub struct Installation {
    pub directory_name: String,
    pub path: UnixPath,
    pub metadata: InstallMetadata,
}

/// The contents of an `Installation`.
pub struct Installed {
    pub name: Seq<char>,
    pub path: Seq<u8>,
    pub record: Record,
}

impl DeepView for Installation {
    type V = Installed;

    open spec fn deep_view(&self) -> Installed {
        Installed { name: self.directory_name@, path: self.path@, record: self.metadata@ }
    }
}

/// The releases that a channel selects.
#[derive(Debug)]
pub struct ChannelState {
    pub current: Option<Installation>,
    pub previous: Option<Installation>,
}

/// The contents of a `ChannelState`.
pub struct Selected {
    pub current: Option<Installed>,
    pub previous: Option<Installed>,
}

impl DeepView for ChannelState {
    type V = Selected;

    open spec fn deep_view(&self) -> Selected {
        Selected { current: self.current.deep_view(), previous: self.previous.deep_view() }
    }
}

/// Whether there is an executable file at `path`.
pub open spec fn nvim_binary(w: World, path: Seq<u8>) -> Result<(), Seq<char>> {
    match w.sight(path) {
        Sight::Absent(cause) | Sight::Failed(cause) => Err(
            "required Neovim executable "@ + shown(path) + " is missing or inaccessible: "@
                + cause,
        ),
        Sight::Present(Entry::File(mode)) => verdict(
            mode & 0o111 != 0,
            "required Neovim executable "@ + shown(path) + " is not executable"@,
        ),
        Sight::Present(_) => Err(
            "required Neovim executable "@ + shown(path) + " is not a regular file"@,
        ),
    }
}

/// Accepts an executable file at `path`.
pub fn validate_nvim_binary(session: &mut Session, path: &UnixPath) -> (done: Result<(), Stop>)
    ensures
        looked(
            *old(session),
            *final(session),
            told(done),
            seq![Deed::Inspect(path@)],
            nvim_binary(old(session).world(), path@),
        ),
{
    let name = "required Neovim executable ".to_owned().concat(path.display().as_str());
    match session.inspect(path)? {
        Lookup::Absent(cause) | Lookup::Failed(cause) => Err(
            failed(name.concat(" is missing or inaccessible: ").concat(cause.as_str())),
        ),
        Lookup::Present(Entry::File(mode)) => {
            if mode & 0o111 == 0 {
                Err(failed(name.concat(" is not executable")))
            } else {
                Ok(())
            }
        },
        Lookup::Present(_) => Err(failed(name.concat(" is not a regular file"))),
    }
}

/// The release in the directory `name` at `path`, which by its name is `release` of `channel`.
pub open spec fn installation_named(
    w: World,
    path: Seq<u8>,
    name: Seq<char>,
    channel: Channel,
    release: Seq<char>,
) -> Result<Record, Seq<char>> {
    let metadata = within(path, ".nv-metadata"@);
    match w.sight(path) {
        Sight::Absent(cause) | Sight::Failed(cause) => Err(
            "managed installation "@ + shown(path) + " is missing or inaccessible: "@ + cause,
        ),
        Sight::Present(entry) => match real_directory(path, entry) {
            Err(message) => Err(message),
            Ok(()) => match nvim_binary(w, within(path, "bin/nvim"@)) {
                Err(message) => Err(message),
                Ok(()) => match w.text(metadata) {
                    Err(cause) => Err(
                        "failed to read installation metadata "@ + shown(metadata) + ": "@ + cause,
                    ),
                    Ok(text) => match record_in(text, metadata) {
                        Err(message) => Err(message),
                        Ok(record) => if record.channel != channel || record.release != release {
                            Err(
                                "metadata "@ + shown(metadata)
                                    + " does not match installation directory "@ + name,
                            )
                        } else {
                            Ok(record)
                        },
                    },
                },
            },
        },
    }
}

/// The release in the directory at `path`, which is to belong to the expected channel, if any.
#[verifier::opaque]
pub open spec fn installation_at(
    w: World,
    paths: Places,
    path: Seq<u8>,
    expected: Option<Channel>,
) -> Result<Record, Seq<char>> {
    if !lies_in(path, paths.installs) {
        Err(
            "installation path "@ + shown(path) + " is outside managed directory "@ + shown(
                paths.installs,
            ),
        )
    } else {
        match last_name(path) {
            None => Err("invalid installation path "@ + shown(path)),
            Some(bytes) => match decoded(bytes) {
                Err(_) => Err("invalid installation path "@ + shown(path)),
                Ok(name) => match install_named(name) {
                    Err(message) => Err(message),
                    Ok((channel, release)) => match expected {
                        Some(other) => if channel != other {
                            Err(
                                "installation "@ + shown(path) + " belongs to "@ + channel.name()
                                    + ", expected "@ + other.name(),
                            )
                        } else {
                            installation_named(w, path, name, channel, release)
                        },
                        None => installation_named(w, path, name, channel, release),
                    },
                },
            },
        }
    }
}

/// What is done to find the release in the directory at `path`, whose name is as it must be.
pub open spec fn named_deeds(w: World, path: Seq<u8>) -> Seq<Deed> {
    let binary = within(path, "bin/nvim"@);
    seq![Deed::Inspect(path)] + match w.sight(path) {
        Sight::Present(Entry::Directory(_)) => seq![Deed::Inspect(binary)] + match nvim_binary(
            w,
            binary,
        ) {
            Ok(()) => seq![Deed::ReadText(within(path, ".nv-metadata"@))],
            Err(_) => seq![],
        },
        _ => seq![],
    }
}

/// Whether `path` is, by its name, the directory of a release of the expected channel, if any.
pub open spec fn well_named(paths: Places, path: Seq<u8>, expected: Option<Channel>) -> bool {
    &&& lies_in(path, paths.installs)
    &&& last_name(path) matches Some(bytes) && decoded(bytes) matches Ok(name) && install_named(
        name,
    ) matches Ok((channel, _)) && (expected matches Some(other) ==> channel == other)
}

/// What is done to find the release in the directory at `path`.
#[verifier::opaque]
pub open spec fn installation_deeds(
    w: World,
    paths: Places,
    path: Seq<u8>,
    expected: Option<Channel>,
) -> Seq<Deed> {
    if well_named(paths, path, expected) {
        named_deeds(w, path)
    } else {
        seq![]
    }
}

/// Reads the release in the directory at `path`.
pub fn read_installation(
    session: &mut Session,
    paths: &Paths,
    path: &UnixPath,
    expected_channel: Option<Channel>,
) -> (done: Result<InstallMetadata, Stop>)
    ensures
        looked(
            *old(session),
            *final(session),
            told(done),
            installation_deeds(old(session).world(), paths@, path@, expected_channel),
            installation_at(old(session).world(), paths@, path@, expected_channel),
        ),
{
    proof {
        reveal(installation_at);
        reveal(installation_deeds);
    }
    let shown_path = path.display();
    if !path.is_in(&paths.installs) {
        return Err(
            failed(
                "installation path ".to_owned().concat(shown_path.as_str()).concat(
                    " is outside managed directory ",
                ).concat(paths.installs.display().as_str()),
            ),
        );
    }
    let name = match path.file_name() {
        None => return Err(
            failed("invalid installation path ".to_owned().concat(shown_path.as_str())),
        ),
        Some(bytes) => match decode(&bytes) {
            Err(_) => return Err(
                failed("invalid installation path ".to_owned().concat(shown_path.as_str())),
            ),
            Ok(name) => name,
        },
    };
    let (name_channel, name_release) = settled(parse_install_name(name.as_str()))?;
    match expected_channel {
        Some(expected) => {
            if name_channel != expected {
                return Err(
                    failed(
                        "installation ".to_owned().concat(shown_path.as_str()).concat(
                            " belongs to ",
                        ).concat(name_channel.as_str()).concat(", expected ").concat(
                            expected.as_str(),
                        ),
                    ),
                );
            }
        },
        None => {},
    }
    match session.inspect(path)? {
        Lookup::Absent(cause) | Lookup::Failed(cause) => return Err(
            failed(
                "managed installation ".to_owned().concat(shown_path.as_str()).concat(
                    " is missing or inaccessible: ",
                ).concat(cause.as_str()),
            ),
        ),
        Lookup::Present(entry) => settled(require_real_directory(path, entry))?,
    }
    validate_nvim_binary(session, &path.join("bin/nvim"))?;
    let metadata_path = path.join(".nv-metadata");
    let text = match session.read_text(&metadata_path)? {
        Attempt::Done(text) => text,
        Attempt::Failed(cause) => return Err(
            failed(
                "failed to read installation metadata ".to_owned().concat(
                    metadata_path.display().as_str(),
                ).concat(": ").concat(cause.as_str()),
            ),
        ),
    };
    let metadata = settled(InstallMetadata::parse(text.as_str(), &metadata_path))?;
    if metadata.channel != name_channel || !same(metadata.release.as_str(), name_release) {
        return Err(
            failed(
                "metadata ".to_owned().concat(metadata_path.display().as_str()).concat(
                    " does not match installation directory ",
                ).concat(name.as_str()),
            ),
        );
    }
    Ok(metadata)
}

/// The directory that the link of a channel selects if `target` is its target.
pub open spec fn channel_target(target: Seq<u8>, channel: Channel, link: Seq<u8>) -> Result<
    Seq<char>,
    Seq<char>,
> {
    let parts = pieces(target);
    if parts.len() != 4 || parts[0] != Piece::Parent || parts[1] != Piece::Parent || parts[2]
        != Piece::Normal(encode_utf8("installs"@)) {
        Err(
            "channel pointer "@ + shown(link) + " has unmanaged target "@ + shown(target)
                + "; expected ../../installs/"@ + channel.name() + "-<release-id>"@,
        )
    } else {
        match parts[3] {
            Piece::Normal(bytes) => match decoded(bytes) {
                Err(_) => Err(
                    "channel pointer "@ + shown(link) + " target is not valid UTF-8: "@ + shown(
                        target,
                    ),
                ),
                Ok(name) => match install_named(name) {
                    Err(message) => Err(message),
                    Ok((found, _)) => if found != channel {
                        Err(
                            "channel pointer "@ + shown(link) + " targets "@ + found.name()
                                + " installation "@ + name,
                        )
                    } else {
                        Ok(name)
                    },
                },
            },
            _ => Err(
                "channel pointer "@ + shown(link) + " has unmanaged target "@ + shown(target),
            ),
        }
    }
}

/// The directory that the link of a channel selects if `target` is its target.
pub fn validate_channel_target(target: &UnixPath, channel: Channel, link: &UnixPath) -> (name:
    Result<String, NvError>)
    ensures
        match name {
            Ok(name) => channel_target(target@, channel, link@) == Ok::<Seq<char>, Seq<char>>(
                name@,
            ),
            Err(cause) => channel_target(target@, channel, link@) == Err::<Seq<char>, Seq<char>>(
                cause@,
            ),
        },
{
    let components = target.components();
    let ghost parts = pieces(target@);
    assert(pieces_of(components@) == parts);
    let mut managed: bool = components.len() == 4;
    if managed {
        assert(parts[0] == components@[0]@);
        assert(parts[1] == components@[1]@);
        assert(parts[2] == components@[2]@);
        assert(parts[3] == components@[3]@);
        managed = match (&components[0], &components[1], &components[2]) {
            (Component::Parent, Component::Parent, Component::Normal(name)) => same_bytes(
                name,
                &encode("installs"),
            ),
            _ => false,
        };
    }
    let pointer = "channel pointer ".to_owned().concat(link.display().as_str());
    if !managed {
        return Err(
            error(
                pointer.concat(" has unmanaged target ").concat(target.display().as_str()).concat(
                    "; expected ../../installs/",
                ).concat(channel.as_str()).concat("-<release-id>"),
            ),
        );
    }
    let name = match &components[3] {
        Component::Normal(bytes) => match decode(bytes) {
            Ok(name) => name,
            Err(_) => return Err(
                error(
                    pointer.concat(" target is not valid UTF-8: ").concat(
                        target.display().as_str(),
                    ),
                ),
            ),
        },
        _ => return Err(
            error(pointer.concat(" has unmanaged target ").concat(target.display().as_str())),
        ),
    };
    let (target_channel, _) = parse_install_name(name.as_str())?;
    if target_channel != channel {
        return Err(
            error(
                pointer.concat(" targets ").concat(target_channel.as_str()).concat(
                    " installation ",
                ).concat(name.as_str()),
            ),
        );
    }
    Ok(name)
}

/// The release that a link of a channel selects, if there is such a link.
#[verifier::opaque]
pub open spec fn pointer_of(w: World, paths: Places, channel: Channel, name: Seq<char>) -> Result<
    Option<Installed>,
    Seq<char>,
> {
    let link = paths.link_of(channel, name);
    match w.sight(link) {
        Sight::Absent(_) => Ok(None),
        Sight::Failed(cause) => Err(
            "failed to inspect channel pointer "@ + shown(link) + ": "@ + cause,
        ),
        Sight::Present(entry) => if entry != Entry::Symlink {
            Err("channel pointer "@ + shown(link) + " is not a symlink"@)
        } else {
            match w.target(link) {
                Err(cause) => Err(
                    "failed to read channel pointer "@ + shown(link) + ": "@ + cause,
                ),
                Ok(target) => match channel_target(target, channel, link) {
                    Err(message) => Err(message),
                    Ok(directory) => {
                        let path = within(paths.installs, directory);
                        match installation_at(w, paths, path, Some(channel)) {
                            Err(message) => Err(message),
                            Ok(record) => Ok(Some(Installed { name: directory, path, record })),
                        }
                    },
                },
            }
        },
    }
}

/// What is done to find the release that a link of a channel selects.
#[verifier::opaque]
pub open spec fn pointer_deeds(w: World, paths: Places, channel: Channel, name: Seq<char>) -> Seq<
    Deed,
> {
    let link = paths.link_of(channel, name);
    seq![Deed::Inspect(link)] + match w.sight(link) {
        Sight::Present(Entry::Symlink) => seq![Deed::ReadLink(link)] + match w.target(link) {
            Ok(target) => match channel_target(target, channel, link) {
                Ok(directory) => installation_deeds(
                    w,
                    paths,
                    within(paths.installs, directory),
                    Some(channel),
                ),
                Err(_) => seq![],
            },
            Err(_) => seq![],
        },
        _ => seq![],
    }
}

/// Reads the release that a link of a channel selects.
pub fn read_channel_pointer(session: &mut Session, paths: &Paths, channel: Channel, name: &str) -> (done:
    Result<Option<Installation>, Stop>)
    ensures
        looked(
            *old(session),
            *final(session),
            told(done),
            pointer_deeds(old(session).world(), paths@, channel, name@),
            pointer_of(old(session).world(), paths@, channel, name@),
        ),
{
    proof {
        reveal(pointer_of);
        reveal(pointer_deeds);
    }
    let link = paths.channel_link(channel, name);
    match session.inspect(&link)? {
        Lookup::Absent(_) => return Ok(None),
        Lookup::Failed(cause) => return Err(
            failed(
                "failed to inspect channel pointer ".to_owned().concat(
                    link.display().as_str(),
                ).concat(": ").concat(cause.as_str()),
            ),
        ),
        Lookup::Present(Entry::Symlink) => {},
        Lookup::Present(_) => return Err(
            failed(
                "channel pointer ".to_owned().concat(link.display().as_str()).concat(
                    " is not a symlink",
                ),
            ),
        ),
    }
    let target = match session.read_link(&link)? {
        Attempt::Done(target) => target,
        Attempt::Failed(cause) => return Err(
            failed(
                "failed to read channel pointer ".to_owned().concat(
                    link.display().as_str(),
                ).concat(": ").concat(cause.as_str()),
            ),
        ),
    };
    let directory_name = settled(validate_channel_target(&target, channel, &link))?;
    let path = paths.installs.join(directory_name.as_str());
    let metadata = read_installation(session, paths, &path, Some(channel))?;
    Ok(Some(Installation { directory_name, path, metadata }))
}

/// The releases that a channel selects: the current one, and another one before it.
#[verifier::opaque]
pub open spec fn state_of(w: World, paths: Places, channel: Channel) -> Result<
    Selected,
    Seq<char>,
> {
    match pointer_of(w, paths, channel, "current"@) {
        Err(message) => Err(message),
        Ok(current) => match pointer_of(w, paths, channel, "previous"@) {
            Err(message) => Err(message),
            Ok(previous) => if current is None && previous is Some {
                Err(
                    "malformed "@ + channel.name() + " channel state at "@ + shown(
                        paths.directory_of(channel),
                    ) + ": previous exists without current"@,
                )
            } else if current is Some && previous is Some && current->0.name == previous->0.name {
                Err(
                    "malformed "@ + channel.name() + " channel state at "@ + shown(
                        paths.directory_of(channel),
                    ) + ": current and previous point to "@ + shown(current->0.path),
                )
            } else {
                Ok(Selected { current, previous })
            },
        },
    }
}

/// What is done to find the releases that a channel selects.
#[verifier::opaque]
pub open spec fn state_deeds(w: World, paths: Places, channel: Channel) -> Seq<Deed> {
    pointer_deeds(w, paths, channel, "current"@) + match pointer_of(
        w,
        paths,
        channel,
        "current"@,
    ) {
        Ok(_) => pointer_deeds(w, paths, channel, "previous"@),
        Err(_) => seq![],
    }
}

/// Reads the releases that a channel selects.
pub fn read_channel_state(session: &mut Session, paths: &Paths, channel: Channel) -> (done: Result<
    ChannelState,
    Stop,
>)
    ensures
        looked(
            *old(session),
            *final(session),
            told(done),
            state_deeds(old(session).world(), paths@, channel),
            state_of(old(session).world(), paths@, channel),
        ),
{
    proof {
        reveal(state_of);
        reveal(state_deeds);
    }
    let current = read_channel_pointer(session, paths, channel, "current")?;
    let previous = read_channel_pointer(session, paths, channel, "previous")?;
    match (&current, &previous) {
        (None, Some(_)) => return Err(
            failed(
                "malformed ".to_owned().concat(channel.as_str()).concat(
                    " channel state at ",
                ).concat(paths.channel_dir(channel).display().as_str()).concat(
                    ": previous exists without current",
                ),
            ),
        ),
        (Some(current), Some(previous)) => {
            if same(current.directory_name.as_str(), previous.directory_name.as_str()) {
                return Err(
                    failed(
                        "malformed ".to_owned().concat(channel.as_str()).concat(
                            " channel state at ",
                        ).concat(paths.channel_dir(channel).display().as_str()).concat(
                            ": current and previous point to ",
                        ).concat(current.path.display().as_str()),
                    ),
                );
            }
        },
        _ => {},
    }
    Ok(ChannelState { current, previous })
}

/// The releases that each channel selects, the stable channel first.
pub open spec fn states_of(w: World, paths: Places) -> Result<
    Seq<(Channel, Selected)>,
    Seq<char>,
> {
    match state_of(w, paths, Channel::Stable) {
        Err(message) => Err(message),
        Ok(stable) => match state_of(w, paths, Channel::Nightly) {
            Err(message) => Err(message),
            Ok(nightly) => Ok(seq![(Channel::Stable, stable), (Channel::Nightly, nightly)]),
        },
    }
}

/// What is done to find the releases that each channel selects.
pub open spec fn states_deeds(w: World, paths: Places) -> Seq<Deed> {
    state_deeds(w, paths, Channel::Stable) + match state_of(w, paths, Channel::Stable) {
        Ok(_) => state_deeds(w, paths, Channel::Nightly),
        Err(_) => seq![],
    }
}

/// Reads the releases that each channel selects, the stable channel first.
pub fn read_all_channel_states(session: &mut Session, paths: &Paths) -> (done: Result<
    Vec<(Channel, ChannelState)>,
    Stop,
>)
    ensures
        looked(
            *old(session),
            *final(session),
            told(done),
            states_deeds(old(session).world(), paths@),
            states_of(old(session).world(), paths@),
        ),
        done matches Ok(states) ==> states@.len() == 2,
{
    let stable = read_channel_state(session, paths, Channel::Stable)?;
    let nightly = read_channel_state(session, paths, Channel::Nightly)?;
    let mut states: Vec<(Channel, ChannelState)> = Vec::new();
    states.push((Channel::Stable, stable));
    states.push((Channel::Nightly, nightly));
    assert(states.deep_view() =~= seq![
        (Channel::Stable, stable.deep_view()),
        (Channel::Nightly, nightly.deep_view()),
    ]);
    Ok(states)
}

} // verus!
