//! The link by which a channel is in use, and the executable that it exposes.

use vstd::prelude::*;
use vstd::utf8::encode_utf8;

use crate::channel::Channel;
use crate::host::{
    failed, group_walked, looked, ran, settled, told, Action, Attempt, Deed, Entry, Lookup, Session,
    Sight, Stop, World,
};
use crate::installation::{read_channel_state, state_deeds, state_of};
use crate::layout::{
    create_private_dir, print, printed, private_made, require_secure_directory, secure_directory,
    sync_directory, synced,
};
use crate::path::{same_path, shown, UnixPath};
use crate::paths::{within, NVIM_LINK_TARGET, Paths, Places};
use crate::pointers::{atomic_symlink_replace, link_replaced, replacing_deeds};

verus! {

broadcast use group_walked;

/// Whether what is at the place of the executable is the link that nv makes.
pub open spec fn managed_link(w: World, paths: Places, entry: Entry) -> Result<(), Seq<char>> {
    let link = paths.nvim_link;
    if entry != Entry::Symlink {
        Err("executable path "@ + shown(link) + " is not nv's managed symlink"@)
    } else {
        match w.target(link) {
            Err(cause) => Err("failed to read executable symlink "@ + shown(link) + ": "@ + cause),
            Ok(target) => if same_path(target, encode_utf8(NVIM_LINK_TARGET@)) {
                Ok(())
            } else {
                Err(
                    "executable symlink "@ + shown(link) + " has unmanaged target "@ + shown(
                        target,
                    ),
                )
            },
        }
    }
}

/// What is done for that.
pub open spec fn managed_deeds(paths: Places, entry: Entry) -> Seq<Deed> {
    if entry == Entry::Symlink {
        seq![Deed::ReadLink(paths.nvim_link)]
    } else {
        seq![]
    }
}

/// Accepts the link that nv makes, and nothing else, at the place of the executable.
pub fn validate_managed_nvim_link(session: &mut Session, paths: &Paths, entry: Entry) -> (done:
    Result<(), Stop>)
    ensures
        looked(
            *old(session),
            *final(session),
            told(done),
            managed_deeds(paths@, entry),
            managed_link(old(session).world(), paths@, entry),
        ),
{
    let shown_link = paths.nvim_link.display();
    if entry != Entry::Symlink {
        return Err(
            failed(
                "executable path ".to_owned().concat(shown_link.as_str()).concat(
                    " is not nv's managed symlink",
                ),
            ),
        );
    }
    match session.read_link(&paths.nvim_link)? {
        Attempt::Failed(cause) => Err(
            failed(
                "failed to read executable symlink ".to_owned().concat(
                    shown_link.as_str(),
                ).concat(": ").concat(cause.as_str()),
            ),
        ),
        Attempt::Done(target) => {
            if target.same_as(&UnixPath::new(NVIM_LINK_TARGET)) {
                Ok(())
            } else {
                Err(
                    failed(
                        "executable symlink ".to_owned().concat(shown_link.as_str()).concat(
                            " has unmanaged target ",
                        ).concat(target.display().as_str()),
                    ),
                )
            }
        },
    }
}

/// Whether the executable is exposed as it must be while a channel is in use.
pub open spec fn exposure(w: World, paths: Places) -> Result<(), Seq<char>> {
    match w.sight(paths.nvim_link) {
        Sight::Absent(cause) | Sight::Failed(cause) => Err(
            "active channel exists but executable link "@ + shown(paths.nvim_link)
                + " is missing or inaccessible: "@ + cause,
        ),
        Sight::Present(entry) => managed_link(w, paths, entry),
    }
}

/// What is done to find what is at the place of the executable.
pub open spec fn exposure_deeds(w: World, paths: Places) -> Seq<Deed> {
    seq![Deed::Inspect(paths.nvim_link)] + match w.sight(paths.nvim_link) {
        Sight::Present(entry) => managed_deeds(paths, entry),
        _ => seq![],
    }
}

/// Accepts an executable that is exposed as it must be while a channel is in use.
pub fn validate_nvim_exposure(session: &mut Session, paths: &Paths) -> (done: Result<(), Stop>)
    ensures
        looked(
            *old(session),
            *final(session),
            told(done),
            exposure_deeds(old(session).world(), paths@),
            exposure(old(session).world(), paths@),
        ),
{
    match session.inspect(&paths.nvim_link)? {
        Lookup::Absent(cause) | Lookup::Failed(cause) => Err(
            failed(
                "active channel exists but executable link ".to_owned().concat(
                    paths.nvim_link.display().as_str(),
                ).concat(" is missing or inaccessible: ").concat(cause.as_str()),
            ),
        ),
        Lookup::Present(entry) => validate_managed_nvim_link(session, paths, entry),
    }
}

/// The message for a directory of executables that cannot be inspected.
pub open spec fn bin_unseen(path: Seq<u8>, cause: Seq<char>) -> Seq<char> {
    "failed to inspect executable directory "@ + shown(path) + ": "@ + cause
}

fn unseen_bin(path: &UnixPath, cause: &str) -> (stop: Stop)
    ensures
        stop matches Stop::Failed(told) && told@ == bin_unseen(path@, cause@),
{
    failed(
        "failed to inspect executable directory ".to_owned().concat(
            path.display().as_str(),
        ).concat(": ").concat(cause),
    )
}

/// The message for an executable that cannot be inspected.
pub open spec fn link_unseen(path: Seq<u8>, cause: Seq<char>) -> Seq<char> {
    "failed to inspect executable link "@ + shown(path) + ": "@ + cause
}

fn unseen_link(path: &UnixPath, cause: &str) -> (stop: Stop)
    ensures
        stop matches Stop::Failed(told) && told@ == link_unseen(path@, cause@),
{
    failed(
        "failed to inspect executable link ".to_owned().concat(path.display().as_str()).concat(
            ": ",
        ).concat(cause),
    )
}

/// Whether nothing is at the place of the executable, or the link that nv makes.
pub open spec fn destination_link(w: World, paths: Places) -> Result<(), Seq<char>> {
    match w.sight(paths.nvim_link) {
        Sight::Present(entry) => managed_link(w, paths, entry),
        Sight::Absent(_) => Ok(()),
        Sight::Failed(cause) => Err(link_unseen(paths.nvim_link, cause)),
    }
}

/// Whether the executable can be exposed.
pub open spec fn destination(w: World, paths: Places) -> Result<(), Seq<char>> {
    match w.sight(paths.local_bin) {
        Sight::Present(entry) => match secure_directory(paths.local_bin, entry) {
            Err(message) => Err(message),
            Ok(()) => destination_link(w, paths),
        },
        Sight::Absent(_) => Ok(()),
        Sight::Failed(cause) => Err(bin_unseen(paths.local_bin, cause)),
    }
}

/// What is done for that.
pub open spec fn destination_deeds(w: World, paths: Places) -> Seq<Deed> {
    seq![Deed::Inspect(paths.local_bin)] + match w.sight(paths.local_bin) {
        Sight::Present(entry) => match secure_directory(paths.local_bin, entry) {
            Ok(()) => exposure_deeds(w, paths),
            Err(_) => seq![],
        },
        _ => seq![],
    }
}

/// Accepts a place where the executable can be exposed.
pub fn validate_activation_destination(session: &mut Session, paths: &Paths) -> (done: Result<
    (),
    Stop,
>)
    ensures
        looked(
            *old(session),
            *final(session),
            told(done),
            destination_deeds(old(session).world(), paths@),
            destination(old(session).world(), paths@),
        ),
{
    match session.inspect(&paths.local_bin)? {
        Lookup::Present(entry) => settled(require_secure_directory(&paths.local_bin, entry))?,
        Lookup::Absent(_) => return Ok(()),
        Lookup::Failed(cause) => return Err(unseen_bin(&paths.local_bin, cause.as_str())),
    }
    match session.inspect(&paths.nvim_link)? {
        Lookup::Present(entry) => validate_managed_nvim_link(session, paths, entry),
        Lookup::Absent(_) => Ok(()),
        Lookup::Failed(cause) => Err(unseen_link(&paths.nvim_link, cause.as_str())),
    }
}

/// Makes the directory of executables unless it exists and is fit for use.
pub open spec fn bin_prepared(w: World, paths: Places) -> (Result<(), Seq<char>>, World) {
    match w.sight(paths.local_bin) {
        Sight::Present(entry) => (secure_directory(paths.local_bin, entry), w),
        Sight::Absent(_) => private_made(w, paths.local_bin),
        Sight::Failed(cause) => (Err(bin_unseen(paths.local_bin, cause)), w),
    }
}

/// Makes the link at the place of the executable unless it is there; anything else is refused.
pub open spec fn link_ensured(w: World, paths: Places) -> (Result<(), Seq<char>>, World) {
    match w.sight(paths.nvim_link) {
        Sight::Present(entry) => (managed_link(w, paths, entry), w),
        Sight::Absent(_) => {
            let (replaced, w1) = link_replaced(w, paths.nvim_link, encode_utf8(NVIM_LINK_TARGET@));
            match replaced {
                Err(message) => (Err(message), w1),
                Ok(()) => synced(w1, paths.local_bin),
            }
        },
        Sight::Failed(cause) => (Err(link_unseen(paths.nvim_link, cause)), w),
    }
}

/// Exposes the executable unless it is exposed already; anything else at its place is refused.
pub open spec fn nvim_linked(w: World, paths: Places) -> (Result<(), Seq<char>>, World) {
    let (prepared, w1) = bin_prepared(w, paths);
    match prepared {
        Err(message) => (Err(message), w1),
        Ok(()) => link_ensured(w1, paths),
    }
}

/// What is done to make the directory of executables.
pub open spec fn bin_deeds(w: World, paths: Places) -> Seq<Deed> {
    seq![Deed::Inspect(paths.local_bin)] + if w.sight(paths.local_bin) is Absent {
        seq![Deed::MakePrivateDirectories(paths.local_bin)]
    } else {
        seq![]
    }
}

/// What is done to make the link at the place of the executable.
pub open spec fn ensuring_deeds(w: World, paths: Places) -> Seq<Deed> {
    let target = encode_utf8(NVIM_LINK_TARGET@);
    seq![Deed::Inspect(paths.nvim_link)] + match w.sight(paths.nvim_link) {
        Sight::Present(entry) => managed_deeds(paths, entry),
        Sight::Absent(_) => replacing_deeds(w, paths.nvim_link, target) + match link_replaced(
            w,
            paths.nvim_link,
            target,
        ).0 {
            Err(_) => seq![],
            Ok(()) => seq![Deed::SyncDirectory(paths.local_bin)],
        },
        Sight::Failed(_) => seq![],
    }
}

/// What is done to expose the executable.
pub open spec fn exposing_deeds(w: World, paths: Places) -> Seq<Deed> {
    let (prepared, w1) = bin_prepared(w, paths);
    bin_deeds(w, paths) + match prepared {
        Err(_) => seq![],
        Ok(()) => ensuring_deeds(w1, paths),
    }
}

/// Exposes the executable unless it is exposed already; anything else at its place is refused.
pub fn ensure_nvim_link(session: &mut Session, paths: &Paths) -> (done: Result<(), Stop>)
    ensures
        ran(
            *old(session),
            *final(session),
            told(done),
            exposing_deeds(old(session).world(), paths@),
            nvim_linked(old(session).world(), paths@),
        ),
{
    match session.inspect(&paths.local_bin)? {
        Lookup::Present(entry) => settled(require_secure_directory(&paths.local_bin, entry))?,
        Lookup::Absent(_) => create_private_dir(session, &paths.local_bin)?,
        Lookup::Failed(cause) => return Err(unseen_bin(&paths.local_bin, cause.as_str())),
    }
    match session.inspect(&paths.nvim_link)? {
        Lookup::Present(entry) => validate_managed_nvim_link(session, paths, entry),
        Lookup::Absent(_) => {
            atomic_symlink_replace(session, &paths.nvim_link, &UnixPath::new(NVIM_LINK_TARGET))?;
            sync_directory(session, &paths.local_bin)
        },
        Lookup::Failed(cause) => Err(unseen_link(&paths.nvim_link, cause.as_str())),
    }
}

/// What the link of the channel in use points to.
pub open spec fn active_target(channel: Channel) -> Seq<u8> {
    within(within(encode_utf8("channels"@), channel.name()), "current"@)
}

fn target_of_active(channel: Channel) -> (target: UnixPath)
    ensures
        target@ == active_target(channel),
{
    UnixPath::new("channels").join(channel.as_str()).join("current")
}

/// The channel in use, if it is `channel`: it must be installed.
pub open spec fn active_installed(w: World, paths: Places, channel: Channel) -> Result<
    Option<Channel>,
    Seq<char>,
> {
    match state_of(w, paths, channel) {
        Err(message) => Err(message),
        Ok(selected) => if selected.current is None {
            Err(
                "active channel link "@ + shown(paths.active) + " points to uninstalled "@
                    + channel.name() + " channel"@,
            )
        } else {
            Ok(Some(channel))
        },
    }
}

/// The channel in use, if there is one.
pub open spec fn active_channel(w: World, paths: Places) -> Result<Option<Channel>, Seq<char>> {
    let link = paths.active;
    match w.sight(link) {
        Sight::Absent(_) => Ok(None),
        Sight::Failed(cause) => Err(
            "failed to inspect active channel link "@ + shown(link) + ": "@ + cause,
        ),
        Sight::Present(entry) => if entry != Entry::Symlink {
            Err("active channel path "@ + shown(link) + " is not a symlink"@)
        } else {
            match w.target(link) {
                Err(cause) => Err(
                    "failed to read active channel link "@ + shown(link) + ": "@ + cause,
                ),
                Ok(target) => if same_path(target, active_target(Channel::Stable)) {
                    active_installed(w, paths, Channel::Stable)
                } else if same_path(target, active_target(Channel::Nightly)) {
                    active_installed(w, paths, Channel::Nightly)
                } else {
                    Err(
                        "active channel link "@ + shown(link) + " has unmanaged target "@ + shown(
                            target,
                        ),
                    )
                },
            }
        },
    }
}

/// What is done to find the channel in use.
pub open spec fn active_deeds(w: World, paths: Places) -> Seq<Deed> {
    let link = paths.active;
    seq![Deed::Inspect(link)] + match w.sight(link) {
        Sight::Present(Entry::Symlink) => seq![Deed::ReadLink(link)] + match w.target(link) {
            Err(_) => seq![],
            Ok(target) => if same_path(target, active_target(Channel::Stable)) {
                state_deeds(w, paths, Channel::Stable)
            } else if same_path(target, active_target(Channel::Nightly)) {
                state_deeds(w, paths, Channel::Nightly)
            } else {
                seq![]
            },
        },
        _ => seq![],
    }
}

fn require_active_installed(session: &mut Session, paths: &Paths, channel: Channel) -> (done:
    Result<Option<Channel>, Stop>)
    ensures
        looked(
            *old(session),
            *final(session),
            told(done),
            state_deeds(old(session).world(), paths@, channel),
            active_installed(old(session).world(), paths@, channel),
        ),
{
    if read_channel_state(session, paths, channel)?.current.is_none() {
        return Err(
            failed(
                "active channel link ".to_owned().concat(paths.active.display().as_str()).concat(
                    " points to uninstalled ",
                ).concat(channel.as_str()).concat(" channel"),
            ),
        );
    }
    Ok(Some(channel))
}

/// Reads the channel in use.
pub fn validate_active_channel(session: &mut Session, paths: &Paths) -> (done: Result<
    Option<Channel>,
    Stop,
>)
    ensures
        looked(
            *old(session),
            *final(session),
            told(done),
            active_deeds(old(session).world(), paths@),
            active_channel(old(session).world(), paths@),
        ),
{
    let shown_link = paths.active.display();
    match session.inspect(&paths.active)? {
        Lookup::Absent(_) => return Ok(None),
        Lookup::Failed(cause) => return Err(
            failed(
                "failed to inspect active channel link ".to_owned().concat(
                    shown_link.as_str(),
                ).concat(": ").concat(cause.as_str()),
            ),
        ),
        Lookup::Present(Entry::Symlink) => {},
        Lookup::Present(_) => return Err(
            failed(
                "active channel path ".to_owned().concat(shown_link.as_str()).concat(
                    " is not a symlink",
                ),
            ),
        ),
    }
    let target = match session.read_link(&paths.active)? {
        Attempt::Done(target) => target,
        Attempt::Failed(cause) => return Err(
            failed(
                "failed to read active channel link ".to_owned().concat(
                    shown_link.as_str(),
                ).concat(": ").concat(cause.as_str()),
            ),
        ),
    };
    if target.same_as(&target_of_active(Channel::Stable)) {
        require_active_installed(session, paths, Channel::Stable)
    } else if target.same_as(&target_of_active(Channel::Nightly)) {
        require_active_installed(session, paths, Channel::Nightly)
    } else {
        Err(
            failed(
                "active channel link ".to_owned().concat(shown_link.as_str()).concat(
                    " has unmanaged target ",
                ).concat(target.display().as_str()),
            ),
        )
    }
}

/// Selects a channel for use, whose executable is exposed.
pub open spec fn channel_selected(w: World, paths: Places, channel: Channel, line: Seq<char>) -> (
    Result<(), Seq<char>>,
    World,
) {
    let (replaced, w1) = link_replaced(w, paths.active, active_target(channel));
    match replaced {
        Err(message) => (Err(message), w1),
        Ok(()) => match active_channel(w1, paths) {
            Err(message) => (Err(message), w1),
            Ok(_) => {
                let (stored, w2) = synced(w1, paths.state);
                match stored {
                    Err(message) => (Err(message), w2),
                    Ok(()) => printed(w2, line),
                }
            },
        },
    }
}

/// The line that tells which release is put in use.
pub open spec fn use_line(channel: Channel, version: Seq<char>, release: Seq<char>) -> Seq<char> {
    "using "@ + channel.name() + " "@ + version + " (release "@ + release + ")"@
}

/// Puts a channel in use.
pub open spec fn channel_activated(w: World, paths: Places, channel: Channel) -> (
    Result<(), Seq<char>>,
    World,
) {
    match state_of(w, paths, channel) {
        Err(message) => (Err(message), w),
        Ok(selected) => match selected.current {
            None => (
                Err("cannot activate "@ + channel.name() + ": channel is not installed"@),
                w,
            ),
            Some(current) => match active_channel(w, paths) {
                Err(message) => (Err(message), w),
                Ok(_) => {
                    let (linked, w1) = nvim_linked(w, paths);
                    match linked {
                        Err(message) => (Err(message), w1),
                        Ok(()) => channel_selected(
                            w1,
                            paths,
                            channel,
                            use_line(channel, current.record.version, current.record.release),
                        ),
                    }
                },
            },
        },
    }
}

/// What is done to select a channel for use, whose executable is exposed.
pub open spec fn selecting_deeds(w: World, paths: Places, channel: Channel, line: Seq<char>) -> Seq<
    Deed,
> {
    let target = active_target(channel);
    let (replaced, w1) = link_replaced(w, paths.active, target);
    replacing_deeds(w, paths.active, target) + match replaced {
        Err(_) => seq![],
        Ok(()) => active_deeds(w1, paths) + match active_channel(w1, paths) {
            Err(_) => seq![],
            Ok(_) => seq![Deed::SyncDirectory(paths.state)] + match synced(w1, paths.state).0 {
                Err(_) => seq![],
                Ok(()) => seq![Deed::Print(line)],
            },
        },
    }
}

/// What is done to put a channel in use.
#[verifier::opaque]
pub open spec fn activation_deeds(w: World, paths: Places, channel: Channel) -> Seq<Deed> {
    state_deeds(w, paths, channel) + match state_of(w, paths, channel) {
        Err(_) => seq![],
        Ok(selected) => match selected.current {
            None => seq![],
            Some(current) => active_deeds(w, paths) + match active_channel(w, paths) {
                Err(_) => seq![],
                Ok(_) => {
                    let (linked, w1) = nvim_linked(w, paths);
                    exposing_deeds(w, paths) + match linked {
                        Err(_) => seq![],
                        Ok(()) => selecting_deeds(
                            w1,
                            paths,
                            channel,
                            use_line(channel, current.record.version, current.record.release),
                        ),
                    }
                },
            },
        },
    }
}

fn select_channel(session: &mut Session, paths: &Paths, channel: Channel, line: String) -> (done:
    Result<(), Stop>)
    ensures
        ran(
            *old(session),
            *final(session),
            told(done),
            selecting_deeds(old(session).world(), paths@, channel, line@),
            channel_selected(old(session).world(), paths@, channel, line@),
        ),
{
    atomic_symlink_replace(session, &paths.active, &target_of_active(channel))?;
    validate_active_channel(session, paths)?;
    sync_directory(session, &paths.state)?;
    print(session, line)
}

/// Puts a channel in use.
pub fn activate_channel(session: &mut Session, paths: &Paths, channel: Channel) -> (done: Result<
    (),
    Stop,
>)
    ensures
        ran(
            *old(session),
            *final(session),
            told(done),
            activation_deeds(old(session).world(), paths@, channel),
            channel_activated(old(session).world(), paths@, channel),
        ),
{
    proof {
        reveal(activation_deeds);
    }
    let current = match read_channel_state(session, paths, channel)?.current {
        Some(current) => current,
        None => return Err(
            failed(
                "cannot activate ".to_owned().concat(channel.as_str()).concat(
                    ": channel is not installed",
                ),
            ),
        ),
    };
    validate_active_channel(session, paths)?;
    ensure_nvim_link(session, paths)?;
    select_channel(
        session,
        paths,
        channel,
        "using ".to_owned().concat(channel.as_str()).concat(" ").concat(
            current.metadata.version.as_str(),
        ).concat(" (release ").concat(current.metadata.release.as_str()).concat(")"),
    )
}

/// Takes the executable away and leaves no channel in use.
pub open spec fn deactivated(w: World, paths: Places) -> (Result<(), Seq<char>>, World) {
    let (removed, w1) = w.attempt(Deed::RemoveFile(paths.active));
    match removed {
        Err(cause) => (
            Err(
                "failed to remove active channel link "@ + shown(paths.active) + ": "@ + cause,
            ),
            w1,
        ),
        Ok(()) => {
            let (stored, w2) = synced(w1, paths.state);
            match stored {
                Err(message) => (Err(message), w2),
                Ok(()) => {
                    let (unlinked, w3) = w2.attempt(Deed::RemoveFile(paths.nvim_link));
                    match unlinked {
                        Err(cause) => (
                            Err(
                                "failed to remove managed executable link "@ + shown(
                                    paths.nvim_link,
                                ) + ": "@ + cause,
                            ),
                            w3,
                        ),
                        Ok(()) => synced(w3, paths.local_bin),
                    }
                },
            }
        },
    }
}

/// What is done for that.
pub open spec fn deactivation_deeds(w: World, paths: Places) -> Seq<Deed> {
    let (removed, w1) = w.attempt(Deed::RemoveFile(paths.active));
    let (stored, w2) = synced(w1, paths.state);
    seq![Deed::RemoveFile(paths.active)] + match removed {
        Err(_) => seq![],
        Ok(()) => seq![Deed::SyncDirectory(paths.state)] + match stored {
            Err(_) => seq![],
            Ok(()) => seq![Deed::RemoveFile(paths.nvim_link)] + match w2.attempt(
                Deed::RemoveFile(paths.nvim_link),
            ).0 {
                Err(_) => seq![],
                Ok(()) => seq![Deed::SyncDirectory(paths.local_bin)],
            },
        },
    }
}

/// Takes the executable away and leaves no channel in use.
pub fn deactivate(session: &mut Session, paths: &Paths) -> (done: Result<(), Stop>)
    ensures
        ran(
            *old(session),
            *final(session),
            told(done),
            deactivation_deeds(old(session).world(), paths@),
            deactivated(old(session).world(), paths@),
        ),
{
    match session.attempt(Action::RemoveFile(paths.active.copy()))? {
        Attempt::Done(_) => {},
        Attempt::Failed(cause) => return Err(
            failed(
                "failed to remove active channel link ".to_owned().concat(
                    paths.active.display().as_str(),
                ).concat(": ").concat(cause.as_str()),
            ),
        ),
    }
    sync_directory(session, &paths.state)?;
    match session.attempt(Action::RemoveFile(paths.nvim_link.copy()))? {
        Attempt::Done(_) => {},
        Attempt::Failed(cause) => return Err(
            failed(
                "failed to remove managed executable link ".to_owned().concat(
                    paths.nvim_link.display().as_str(),
                ).concat(": ").concat(cause.as_str()),
            ),
        ),
    }
    sync_directory(session, &paths.local_bin)
}

} // verus!
